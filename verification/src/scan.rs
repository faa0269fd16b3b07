//! Scanning: one walk gives both the junk directories and the tree of all entries.

use vstd::prelude::*;

use crate::junk::{HitFacts, JunkHit};
use crate::order::{arrange_all, permute, sort, Rank};
use crate::paths::{component_count, join, place_paths, Component, Place};
use crate::platform::{EntryFacts, RawEntry};
use crate::walker::{Entry, EntryKind};
use crate::order;
use crate::paths;
use crate::platform;
use crate::walker;

verus! {

/// The tree takes no more entries than this.
pub const TREE_MAX_ENTRIES: usize = 4_000_000;

/// An entry of the scanned tree.
#[derive(Debug)]
pub struct TreeEntry {
    pub path: Vec<u8>,
    pub kind: EntryKind,
    /// How many components the path has beyond those of the root.
    pub depth: usize,
    pub size: u64,
    pub is_junk: bool,
}

/// What is known of an entry of the scanned tree.
pub struct Node {
    pub path: Seq<u8>,
    pub kind: EntryKind,
    pub depth: usize,
    pub size: u64,
    pub is_junk: bool,
}

impl View for TreeEntry {
    type V = Node;

    open spec fn view(&self) -> Node {
        Node {
            path: self.path@,
            kind: self.kind,
            depth: self.depth,
            size: self.size,
            is_junk: self.is_junk,
        }
    }
}

pub open spec fn nodes(tree: Seq<TreeEntry>) -> Seq<Node> {
    tree.map_values(|e: TreeEntry| e@)
}

pub open spec fn hit_facts(hits: Seq<JunkHit>) -> Seq<HitFacts> {
    hits.map_values(|h: JunkHit| h@)
}

// ── Collecting ──────────────────────────────────────────────────────────

/// What one worker has collected.
#[derive(Debug)]
pub struct Collected {
    pub hits: Vec<JunkHit>,
    pub tree: Vec<TreeEntry>,
}

/// How far below the root a path lies.
pub open spec fn depth_of(path: Seq<u8>, root_depth: usize) -> usize {
    let count = paths::components(path).len();
    if count <= root_depth {
        0
    } else {
        (count - root_depth) as usize
    }
}

/// Only directories can be junk.
pub open spec fn is_junk_dir(kind: EntryKind, matches_pattern: bool) -> bool {
    kind is Dir && matches_pattern
}

/// The tree entry for an entry of `dir`.
pub open spec fn node_of(dir: Seq<u8>, e: EntryFacts, is_junk: bool, root_depth: usize) -> Node {
    Node {
        path: paths::joined(dir, e.name),
        kind: e.kind,
        depth: depth_of(paths::joined(dir, e.name), root_depth),
        size: match e.size {
            Some(bytes) => bytes,
            None => 0,
        },
        is_junk,
    }
}

/// The hit for a directory `name` in `dir` that is junk of `ecosystem`. Its size is not known yet.
pub open spec fn hit_of(dir: Seq<u8>, name: Seq<u8>, ecosystem: Seq<char>) -> HitFacts {
    HitFacts { path: paths::joined(dir, name), ecosystem, size_bytes: 0 }
}

/// Which entries of a listing are junk, from the ecosystems whose patterns they match.
pub open spec fn junk_in(listing: Seq<EntryFacts>, ecosystems: Seq<Option<Seq<char>>>) -> Seq<
    bool,
> {
    Seq::new(listing.len(), |i: int| is_junk_dir(listing[i].kind, ecosystems[i] is Some))
}

/// The tree entries for a listing of `dir`.
pub open spec fn nodes_in(
    dir: Seq<u8>,
    listing: Seq<EntryFacts>,
    ecosystems: Seq<Option<Seq<char>>>,
    root_depth: usize,
) -> Seq<Node> {
    Seq::new(
        listing.len(),
        |i: int| node_of(dir, listing[i], junk_in(listing, ecosystems)[i], root_depth),
    )
}

/// The hits for a listing of `dir`, in order.
pub open spec fn hits_in(
    dir: Seq<u8>,
    listing: Seq<EntryFacts>,
    ecosystems: Seq<Option<Seq<char>>>,
) -> Seq<HitFacts>
    decreases listing.len(),
{
    if listing.len() == 0 {
        seq![]
    } else {
        let n = listing.len() - 1;
        let before = hits_in(dir, listing.drop_last(), ecosystems);
        if is_junk_dir(listing[n].kind, ecosystems[n] is Some) {
            before.push(hit_of(dir, listing[n].name, ecosystems[n]->0))
        } else {
            before
        }
    }
}

/// How many of `n` entries find room in the trees, where `taken` have found it before.
pub open spec fn room_for(n: nat, taken: usize) -> int {
    if taken >= TREE_MAX_ENTRIES {
        0
    } else if n > TREE_MAX_ENTRIES - taken {
        TREE_MAX_ENTRIES - taken
    } else {
        n as int
    }
}

pub open spec fn ecosystem_names(ecosystems: Seq<Option<&'static str>>) -> Seq<
    Option<Seq<char>>,
> {
    ecosystems.map_values(
        |e: Option<&'static str>|
            match e {
                Some(name) => Some(name@),
                None => None,
            },
    )
}

/// A junk directory is not descended into, and every other directory is.
pub proof fn junk_is_not_entered(kind: EntryKind, matches_pattern: bool, follow_symlinks: bool)
    requires
        kind is Dir,
    ensures
        walker::descends(kind, is_junk_dir(kind, matches_pattern), follow_symlinks)
            == !matches_pattern,
{
}

impl Collected {
    pub fn new() -> (collected: Self)
        ensures
            collected.hits@ == Seq::<JunkHit>::empty(),
            collected.tree@ == Seq::<TreeEntry>::empty(),
    {
        Collected { hits: Vec::with_capacity(256), tree: Vec::with_capacity(8192) }
    }

    /// Takes up an entry. `ecosystem` is that of the junk pattern that a directory matches,
    /// `taken` is how many entries all workers have put into their trees. A junk directory is
    /// not descended into.
    pub fn visit(
        &mut self,
        entry: &Entry,
        ecosystem: Option<&'static str>,
        root_depth: usize,
        taken: usize,
    ) -> (skip: bool)
        ensures
            skip == is_junk_dir(entry.kind, ecosystem is Some),
            hit_facts(final(self).hits@) == (if skip {
                hit_facts(old(self).hits@).push(
                    hit_of(entry.parent@, entry.name@, ecosystem->0@),
                )
            } else {
                hit_facts(old(self).hits@)
            }),
            nodes(final(self).tree@) == (if taken < TREE_MAX_ENTRIES {
                nodes(old(self).tree@).push(
                    node_of(
                        entry.parent@,
                        EntryFacts { name: entry.name@, kind: entry.kind, size: entry.size },
                        skip,
                        root_depth,
                    ),
                )
            } else {
                nodes(old(self).tree@)
            }),
    {
        let mut skip: bool = false;
        match (entry.kind, ecosystem) {
            (EntryKind::Dir, Some(name)) => {
                skip = true;
                let hit = JunkHit {
                    path: join(entry.parent, entry.name),
                    ecosystem: name,
                    size_bytes: 0,
                };
                assert(hit_facts(self.hits@.push(hit)) =~= hit_facts(self.hits@).push(hit@));
                self.hits.push(hit);
            },
            _ => {},
        }
        if taken < TREE_MAX_ENTRIES {
            let path = join(entry.parent, entry.name);
            let depth: usize = component_count(path.as_slice()).saturating_sub(root_depth);
            let size: u64 = match entry.size {
                Some(bytes) => bytes,
                None => 0,
            };
            let node = TreeEntry { path, kind: entry.kind, depth, size, is_junk: skip };
            assert(nodes(self.tree@.push(node)) =~= nodes(self.tree@).push(node@));
            self.tree.push(node);
        }
        skip
    }

    /// Takes up what a directory lists, entry by entry. `ecosystems` are those of the junk
    /// patterns that its directories match, `taken` is how many entries all workers have put
    /// into their trees. Says of each entry whether it is to be skipped.
    pub fn visit_listing(
        &mut self,
        dir: &[u8],
        listing: &[RawEntry],
        ecosystems: &[Option<&'static str>],
        root_depth: usize,
        taken: usize,
    ) -> (skips: Vec<bool>)
        requires
            ecosystems@.len() == listing@.len(),
        ensures
            skips@ == junk_in(
                platform::listing_facts(listing@),
                ecosystem_names(ecosystems@),
            ),
            hit_facts(final(self).hits@) == hit_facts(old(self).hits@) + hits_in(
                dir@,
                platform::listing_facts(listing@),
                ecosystem_names(ecosystems@),
            ),
            nodes(final(self).tree@) == nodes(old(self).tree@) + nodes_in(
                dir@,
                platform::listing_facts(listing@),
                ecosystem_names(ecosystems@),
                root_depth,
            ).take(room_for(listing@.len(), taken)),
    {
        let ghost facts = platform::listing_facts(listing@);
        let ghost names = ecosystem_names(ecosystems@);
        let ghost all = nodes_in(dir@, facts, names, root_depth);
        let mut skips: Vec<bool> = Vec::new();
        let mut so_far: usize = taken;
        let mut i: usize = 0;
        assert(hits_in(dir@, facts.take(0), names) =~= seq![]);
        assert(hit_facts(self.hits@) + seq![] =~= hit_facts(self.hits@));
        assert(nodes(self.tree@) + all.take(0) =~= nodes(self.tree@));
        while i < listing.len()
            invariant
                i <= listing@.len(),
                ecosystems@.len() == listing@.len(),
                facts == platform::listing_facts(listing@),
                names == ecosystem_names(ecosystems@),
                all == nodes_in(dir@, facts, names, root_depth),
                skips@ == junk_in(facts, names).take(i as int),
                so_far == taken + room_for(i as nat, taken),
                hit_facts(self.hits@) == hit_facts(old(self).hits@) + hits_in(
                    dir@,
                    facts.take(i as int),
                    names,
                ),
                nodes(self.tree@) == nodes(old(self).tree@) + all.take(
                    room_for(i as nat, taken),
                ),
            decreases listing@.len() - i,
        {
            let found = &listing[i];
            let entry = Entry {
                parent: dir,
                name: found.name.as_slice(),
                kind: found.kind,
                size: found.size,
            };
            let ghost hits = hit_facts(self.hits@);
            let ghost tree = nodes(self.tree@);
            let skip = self.visit(&entry, ecosystems[i], root_depth, so_far);
            proof {
                let front = facts.take(i + 1);
                assert(facts[i as int] == found@);
                assert(names[i as int] == (match ecosystems@[i as int] {
                    Some(name) => Some(name@),
                    None => None,
                }));
                assert(front.drop_last() =~= facts.take(i as int));
                assert(front.last() == facts[i as int]);
                assert(skip == junk_in(facts, names)[i as int]);
                if skip {
                    let hit = hit_of(dir@, facts[i as int].name, names[i as int]->0);
                    assert((hit_facts(old(self).hits@) + hits_in(
                        dir@,
                        facts.take(i as int),
                        names,
                    )).push(hit) =~= hit_facts(old(self).hits@) + hits_in(dir@, front, names));
                }
                if so_far < TREE_MAX_ENTRIES {
                    assert(all[i as int] == node_of(dir@, facts[i as int], skip, root_depth));
                    assert((nodes(old(self).tree@) + all.take(i as int)).push(all[i as int])
                        =~= nodes(old(self).tree@) + all.take(i + 1));
                }
            }
            if so_far < TREE_MAX_ENTRIES {
                so_far = so_far + 1;
            }
            skips.push(skip);
            i = i + 1;
            assert(skips@ =~= junk_in(facts, names).take(i as int));
        }
        assert(facts.take(i as int) =~= facts);
        assert(skips@ =~= junk_in(facts, names));
        skips
    }
}

/// What a directory lists lies one deeper than the directory.
pub proof fn child_is_one_deeper(dir: Seq<u8>, name: Seq<u8>, root_depth: usize)
    requires
        paths::is_file_name(name),
        root_depth <= paths::components(dir).len() < usize::MAX,
    ensures
        depth_of(paths::joined(dir, name), root_depth) == depth_of(dir, root_depth) + 1,
{
    paths::joining_adds_one_component(dir, name);
}

// ── Merging ─────────────────────────────────────────────────────────────

/// Everything that a scan gives.
#[derive(Debug)]
pub struct FullScanResult {
    pub hits: Vec<JunkHit>,
    pub tree: Vec<TreeEntry>,
}

/// The order of tree entries and of hits by path.
pub struct ByPath;

impl Rank<TreeEntry> for ByPath {
    open spec fn in_order(a: TreeEntry, b: TreeEntry) -> bool {
        !paths::path_before(paths::components(b.path@), paths::components(a.path@))
    }

    proof fn lemma_in_order(a: TreeEntry, b: TreeEntry, c: TreeEntry) {
        lemma_path_rank(a.path@, b.path@, c.path@);
    }

    fn need_not_follow(a: &TreeEntry, b: &TreeEntry) -> (r: bool) {
        proof {
            lemma_path_rank(a.path@, b.path@, a.path@);
        }
        match place_paths(a.path.as_slice(), b.path.as_slice()) {
            Place::After => false,
            _ => true,
        }
    }
}

impl Rank<JunkHit> for ByPath {
    open spec fn in_order(a: JunkHit, b: JunkHit) -> bool {
        !paths::path_before(paths::components(b.path@), paths::components(a.path@))
    }

    proof fn lemma_in_order(a: JunkHit, b: JunkHit, c: JunkHit) {
        lemma_path_rank(a.path@, b.path@, c.path@);
    }

    fn need_not_follow(a: &JunkHit, b: &JunkHit) -> (r: bool) {
        proof {
            lemma_path_rank(a.path@, b.path@, a.path@);
        }
        match place_paths(a.path.as_slice(), b.path.as_slice()) {
            Place::After => false,
            _ => true,
        }
    }
}

proof fn lemma_path_rank(a: Seq<u8>, b: Seq<u8>, c: Seq<u8>)
    ensures
        ({
            let x = paths::components(a);
            let y = paths::components(b);
            let z = paths::components(c);
            &&& !paths::path_before(x, y) || !paths::path_before(y, x)
            &&& !paths::path_before(y, x) && !paths::path_before(z, y) ==> !paths::path_before(
                z,
                x,
            )
            &&& x == y ==> !paths::path_before(x, y)
        }),
{
    let x = paths::components(a);
    let y = paths::components(b);
    let z = paths::components(c);
    paths::path_order_is_total(x, y);
    paths::path_order_is_total(y, z);
    paths::path_order_is_total(z, x);
    if paths::path_before(z, x) && paths::path_before(x, y) {
        paths::path_order_is_transitive(z, x, y);
    }
    if paths::path_before(z, x) && paths::path_before(y, z) {
        paths::path_order_is_transitive(y, z, x);
    }
}

/// The hits of all workers, in the order of the workers.
pub open spec fn all_hits(locals: Seq<Collected>) -> Seq<JunkHit> {
    locals.map_values(|c: Collected| c.hits@).flatten()
}

/// The tree entries of all workers, in the order of the workers.
pub open spec fn all_entries(locals: Seq<Collected>) -> Seq<TreeEntry> {
    locals.map_values(|c: Collected| c.tree@).flatten()
}

/// Item `i` is the first hit with its path.
pub open spec fn is_first_hit(hits: Seq<JunkHit>, i: int) -> bool {
    &&& 0 <= i < hits.len()
    &&& forall|j: int|
        0 <= j < i ==> paths::components(#[trigger] hits[j].path@) != paths::components(
            hits[i].path@,
        )
}

/// `hit` is the first of `hits` with its path.
pub open spec fn is_first_of(hits: Seq<JunkHit>, hit: JunkHit) -> bool {
    exists|i: int| #[trigger] is_first_hit(hits, i) && hits[i] == hit
}

pub open spec fn has_path(hits: Seq<JunkHit>, path: Seq<Component>) -> bool {
    exists|i: int| 0 <= i < hits.len() && paths::components(#[trigger] hits[i].path@) == path
}

/// `kept` holds the first hit of every path, sorted by path.
pub open spec fn is_distinct_from(hits: Seq<JunkHit>, kept: Seq<JunkHit>) -> bool {
    &&& forall|k: int| 0 <= k < kept.len() ==> is_first_of(hits, #[trigger] kept[k])
    &&& forall|i: int|
        0 <= i < hits.len() ==> has_path(kept, paths::components(#[trigger] hits[i].path@))
    &&& forall|k: int, m: int|
        0 <= k < m < kept.len() ==> paths::path_before(
            paths::components(#[trigger] kept[k].path@),
            paths::components(#[trigger] kept[m].path@),
        )
}

/// Position `k` of `order` is where a run of equal paths starts.
spec fn starts_run(hits: Seq<JunkHit>, order: Seq<usize>, k: int) -> bool {
    &&& 0 <= k < order.len()
    &&& (k == 0 || path_at(hits, order, k - 1) != path_at(hits, order, k))
}

/// Every position belongs to a run that starts at or before it.
proof fn lemma_run_start(hits: Seq<JunkHit>, order: Seq<usize>, k: int) -> (start: int)
    requires
        0 <= k < order.len(),
    ensures
        0 <= start <= k,
        starts_run(hits, order, start),
        path_at(hits, order, start) == path_at(hits, order, k),
    decreases k,
{
    if starts_run(hits, order, k) {
        k
    } else {
        lemma_run_start(hits, order, k - 1)
    }
}

/// The first hit of every path, sorted by path.
fn distinct_hits(hits: Vec<JunkHit>) -> (kept: Vec<JunkHit>)
    ensures
        is_distinct_from(hits@, kept@),
{
    let order = arrange_all::<JunkHit, ByPath>(hits.as_slice());
    proof {
        let n = hits.len();
        assert(n == hits@.len());
        order::lemma_arranged::<JunkHit, ByPath>(hits@, order@);
    }
    let ghost all = hits@;
    let mut picks: Vec<usize> = Vec::new();
    // Where in `order` each pick stands.
    let ghost mut spots: Seq<int> = seq![];
    let mut k: usize = 0;
    while k < order.len()
        invariant
            k <= order@.len(),
            all == hits@,
            forall|i: int| 0 <= i < order@.len() ==> #[trigger] order@[i] < all.len(),
            picks@.len() == spots.len(),
            forall|p: int|
                0 <= p < spots.len() ==> 0 <= #[trigger] spots[p] < k && picks@[p]
                    == order@[spots[p]] && starts_run(all, order@, spots[p]),
            forall|p: int, q: int| 0 <= p < q < spots.len() ==> spots[p] < spots[q],
            forall|m: int| 0 <= m < k && #[trigger] starts_run(all, order@, m) ==> spots.contains(m),
        decreases order@.len() - k,
    {
        let keep: bool = if k == 0 {
            true
        } else {
            match place_paths(
                hits[order[k - 1]].path.as_slice(),
                hits[order[k]].path.as_slice(),
            ) {
                Place::Same => false,
                _ => true,
            }
        };
        proof {
            if k > 0 {
                paths::path_order_is_total(
                    path_at(all, order@, k - 1),
                    path_at(all, order@, k as int),
                );
            }
            assert(keep == starts_run(all, order@, k as int));
        }
        if keep {
            picks.push(order[k]);
            proof {
                let before = spots;
                spots = spots.push(k as int);
                assert forall|m: int|
                    0 <= m < k + 1 && #[trigger] starts_run(
                        all,
                        order@,
                        m,
                    ) implies spots.contains(m) by {
                    if m < k {
                        let p = choose|p: int| 0 <= p < before.len() && before[p] == m;
                        assert(spots[p] == m);
                    } else {
                        assert(spots[before.len() as int] == m);
                    }
                }
            }
        }
        k = k + 1;
    }
    proof {
        assert forall|p: int, q: int| 0 <= p < q < picks@.len() implies picks@[p]
            != picks@[q] by {
            assert(spots[p] < spots[q]);
        }
        assert forall|p: int| 0 <= p < picks@.len() implies #[trigger] picks@[p] < all.len() by {
            assert(picks@[p] == order@[spots[p]]);
        }
    }
    let kept = permute(hits, &picks);
    proof {
        lemma_distinct(all, order@, spots, kept@);
    }
    kept
}

proof fn lemma_distinct(
    hits: Seq<JunkHit>,
    order: Seq<usize>,
    spots: Seq<int>,
    kept: Seq<JunkHit>,
)
    requires
        order::is_arranged::<JunkHit, ByPath>(hits, order::positions(hits.len()), order),
        hits.len() <= usize::MAX,
        kept.len() == spots.len(),
        forall|p: int|
            0 <= p < spots.len() ==> starts_run(hits, order, #[trigger] spots[p]) && kept[p]
                == hits[order[spots[p]] as int],
        forall|p: int, q: int| 0 <= p < q < spots.len() ==> spots[p] < spots[q],
        forall|m: int| #[trigger] starts_run(hits, order, m) ==> spots.contains(m),
    ensures
        is_distinct_from(hits, kept),
{
    order::lemma_arranged::<JunkHit, ByPath>(hits, order);
    assert forall|p: int| 0 <= p < kept.len() implies is_first_of(
        hits,
        #[trigger] kept[p],
    ) by {
        lemma_first_in_run(hits, order, spots[p]);
    }
    assert forall|i: int| 0 <= i < hits.len() implies has_path(
        kept,
        paths::components(#[trigger] hits[i].path@),
    ) by {
        assert(order.contains(i as usize));
        let m = choose|m: int| 0 <= m < order.len() && order[m] == i as usize;
        let start = lemma_run_start(hits, order, m);
        let p = choose|p: int| 0 <= p < spots.len() && spots[p] == start;
        assert(paths::components(kept[p].path@) == paths::components(hits[i].path@));
    }
    assert forall|p: int, q: int| 0 <= p < q < kept.len() implies paths::path_before(
        paths::components(#[trigger] kept[p].path@),
        paths::components(#[trigger] kept[q].path@),
    ) by {
        assert(spots[p] < spots[q]);
        lemma_sorted_apart(hits, order, spots[p], spots[q]);
    }
}

spec fn path_at(hits: Seq<JunkHit>, order: Seq<usize>, k: int) -> Seq<Component> {
    paths::components(hits[order[k] as int].path@)
}

/// Whatever stands before a run comes before it.
proof fn lemma_sorted_apart(hits: Seq<JunkHit>, order: Seq<usize>, i: int, j: int)
    requires
        order::is_arranged::<JunkHit, ByPath>(hits, order::positions(hits.len()), order),
        0 <= i < j,
        starts_run(hits, order, j),
    ensures
        paths::path_before(path_at(hits, order, i), path_at(hits, order, j)),
{
    let a = path_at(hits, order, i);
    let b = path_at(hits, order, j - 1);
    let c = path_at(hits, order, j);
    assert(order::goes_first::<JunkHit, ByPath>(hits, order[j - 1], order[j]));
    paths::path_order_is_total(b, c);
    if i < j - 1 {
        assert(order::goes_first::<JunkHit, ByPath>(hits, order[i], order[j - 1]));
        paths::path_order_is_total(a, b);
        if paths::path_before(a, b) {
            paths::path_order_is_transitive(a, b, c);
        }
    }
}

/// The first hit of a run of equal paths came first of all hits with that path.
proof fn lemma_first_in_run(hits: Seq<JunkHit>, order: Seq<usize>, k: int)
    requires
        order::is_arranged::<JunkHit, ByPath>(hits, order::positions(hits.len()), order),
        hits.len() <= usize::MAX,
        starts_run(hits, order, k),
    ensures
        is_first_hit(hits, order[k] as int),
{
    order::lemma_arranged::<JunkHit, ByPath>(hits, order);
    let f = order[k] as int;
    assert forall|j: int| 0 <= j < f implies paths::components(#[trigger] hits[j].path@)
        != paths::components(hits[f].path@) by {
        assert(order.contains(j as usize));
        let m = choose|m: int| 0 <= m < order.len() && order[m] == j as usize;
        let a = path_at(hits, order, m);
        let b = path_at(hits, order, k);
        paths::path_order_is_total(a, b);
        if m < k {
            lemma_sorted_apart(hits, order, m, k);
        } else if m > k {
            assert(order::goes_first::<JunkHit, ByPath>(hits, order[k], order[m]));
        }
    }
}

/// The first tree entries of all workers, no more than the tree takes.
pub open spec fn kept_entries(locals: Seq<Collected>) -> Seq<TreeEntry> {
    if all_entries(locals).len() > TREE_MAX_ENTRIES {
        all_entries(locals).take(TREE_MAX_ENTRIES as int)
    } else {
        all_entries(locals)
    }
}

/// `result` is what the workers have collected: every junk directory once, by path, and the tree
/// by path.
pub open spec fn is_result_of(locals: Seq<Collected>, result: FullScanResult) -> bool {
    &&& is_distinct_from(all_hits(locals), result.hits@)
    &&& order::is_sorted_from::<TreeEntry, ByPath>(kept_entries(locals), result.tree@)
}

/// The result of a scan, from what its workers have collected.
pub fn scan_all(locals: Vec<Collected>) -> (result: FullScanResult)
    ensures
        is_result_of(locals@, result),
{
    let ghost parts = locals@;
    let mut rest = locals;
    let mut hits: Vec<JunkHit> = Vec::new();
    let mut tree: Vec<TreeEntry> = Vec::new();
    assert(hits@ + all_hits(rest@) =~= all_hits(parts));
    assert(tree@ + all_entries(rest@) =~= all_entries(parts));
    while rest.len() > 0
        invariant
            hits@ + all_hits(rest@) == all_hits(parts),
            tree@ + all_entries(rest@) == all_entries(parts),
        decreases rest@.len(),
    {
        let ghost left = rest@;
        let mut part = rest.remove(0);
        proof {
            let hs = left.map_values(|c: Collected| c.hits@);
            let ts = left.map_values(|c: Collected| c.tree@);
            assert(hs.drop_first() =~= rest@.map_values(|c: Collected| c.hits@));
            assert(ts.drop_first() =~= rest@.map_values(|c: Collected| c.tree@));
            assert(all_hits(left) =~= part.hits@ + all_hits(rest@));
            assert(all_entries(left) =~= part.tree@ + all_entries(rest@));
            assert(hits@ + (part.hits@ + all_hits(rest@)) =~= hits@ + part.hits@ + all_hits(
                rest@,
            ));
            assert(tree@ + (part.tree@ + all_entries(rest@)) =~= tree@ + part.tree@ + all_entries(
                rest@,
            ));
        }
        hits.append(&mut part.hits);
        tree.append(&mut part.tree);
    }
    assert(hits@ =~= all_hits(parts));
    assert(tree@ =~= all_entries(parts));
    if tree.len() > TREE_MAX_ENTRIES {
        tree.truncate(TREE_MAX_ENTRIES);
    }
    FullScanResult { hits: distinct_hits(hits), tree: sort::<TreeEntry, ByPath>(tree) }
}

// ── Sizes ───────────────────────────────────────────────────────────────

/// How many hits one thread takes when `threads` of them share `len` hits: an equal share,
/// and at least one.
pub open spec fn share_of_one(len: usize, threads: usize) -> int {
    let share = len as int / (if threads == 0 {
        1
    } else {
        threads as int
    });
    if share == 0 {
        1
    } else {
        share
    }
}

/// How many hits one thread takes when `threads` of them share `len` hits.
pub fn chunk_size(len: usize, threads: usize) -> (size: usize)
    ensures
        size == share_of_one(len, threads),
{
    let sharers: usize = if threads == 0 {
        1
    } else {
        threads
    };
    let share: usize = len / sharers;
    if share == 0 {
        1
    } else {
        share
    }
}

/// The hits with the sizes that were found for them.
pub open spec fn with_sizes(hits: Seq<JunkHit>, sizes: Seq<u64>) -> Seq<HitFacts> {
    Seq::new(sizes.len(), |i: int| HitFacts { size_bytes: sizes[i], ..hits[i]@ })
}

/// Gives every hit the size that was found for it.
pub fn compute_sizes(hits: &mut [JunkHit], sizes: &[u64])
    requires
        old(hits)@.len() == sizes@.len(),
    ensures
        hit_facts(final(hits)@) == with_sizes(old(hits)@, sizes@),
{
    let mut i: usize = 0;
    while i < sizes.len()
        invariant
            i <= sizes@.len(),
            hits@.len() == sizes@.len(),
            old(hits)@.len() == sizes@.len(),
            forall|k: int|
                0 <= k < i ==> (#[trigger] hits@[k])@ == (HitFacts {
                    size_bytes: sizes@[k],
                    ..old(hits)@[k]@
                }),
            forall|k: int| i <= k < sizes@.len() ==> hits@[k] == #[trigger] old(hits)@[k],
        decreases sizes@.len() - i,
    {
        hits[i].size_bytes = sizes[i];
        i = i + 1;
    }
    assert(hit_facts(hits@) =~= with_sizes(old(hits)@, sizes@));
}

/// The size of the last hit with this path.
pub open spec fn size_found(hits: Seq<JunkHit>, path: Seq<Component>) -> Option<u64>
    decreases hits.len(),
{
    if hits.len() == 0 {
        None
    } else if paths::components(hits.last().path@) == path {
        Some(hits.last().size_bytes)
    } else {
        size_found(hits.drop_last(), path)
    }
}

/// A junk entry without a size gets that of its hit.
pub open spec fn with_found_size(hits: Seq<JunkHit>, node: Node) -> Node {
    if node.is_junk && node.size == 0 {
        match size_found(hits, paths::components(node.path)) {
            Some(size) => Node { size, ..node },
            None => node,
        }
    } else {
        node
    }
}

proof fn lemma_size_found(hits: Seq<JunkHit>, path: Seq<Component>, k: int)
    requires
        -1 <= k < hits.len(),
        k >= 0 ==> paths::components(hits[k].path@) == path,
        forall|j: int| k < j < hits.len() ==> paths::components(#[trigger] hits[j].path@) != path,
    ensures
        size_found(hits, path) == (if k >= 0 {
            Some(hits[k].size_bytes)
        } else {
            None
        }),
    decreases hits.len(),
{
    if hits.len() > 0 && k < hits.len() - 1 {
        assert(paths::components(hits[hits.len() - 1].path@) != path);
        assert forall|j: int| k < j < hits.len() - 1 implies paths::components(
            #[trigger] hits.drop_last()[j].path@,
        ) != path by {
            assert(hits.drop_last()[j] == hits[j]);
        }
        lemma_size_found(hits.drop_last(), path, k);
    }
}

/// Where every hit has a path of its own, the order of the hits does not matter.
pub proof fn hit_order_does_not_matter(
    a: Seq<JunkHit>,
    b: Seq<JunkHit>,
    path: Seq<Component>,
)
    requires
        a.to_multiset() == b.to_multiset(),
        forall|i: int, j: int|
            0 <= i < j < a.len() ==> paths::components(#[trigger] a[i].path@)
                != paths::components(#[trigger] a[j].path@),
    ensures
        size_found(a, path) == size_found(b, path),
{
    lemma_same_items(a, b);
    if has_path(a, path) {
        let i = choose|i: int|
            0 <= i < a.len() && paths::components(#[trigger] a[i].path@) == path;
        lemma_size_found(a, path, i);
        assert(b.contains(a[i]));
        let first = choose|k: int| 0 <= k < b.len() && b[k] == a[i];
        let k = lemma_last_with_path(b, path, first);
        lemma_size_found(b, path, k);
        assert(a.contains(b[k]));
        let m = choose|m: int| 0 <= m < a.len() && a[m] == b[k];
        assert(m == i);
    } else {
        lemma_size_found(a, path, -1);
        assert forall|k: int| 0 <= k < b.len() implies paths::components(#[trigger] b[k].path@)
            != path by {
            assert(a.contains(b[k]));
            let m = choose|m: int| 0 <= m < a.len() && a[m] == b[k];
            assert(paths::components(a[m].path@) != path);
        }
        lemma_size_found(b, path, -1);
    }
}

proof fn lemma_same_items(a: Seq<JunkHit>, b: Seq<JunkHit>)
    requires
        a.to_multiset() == b.to_multiset(),
    ensures
        forall|i: int| 0 <= i < a.len() ==> b.contains(#[trigger] a[i]),
        forall|k: int| 0 <= k < b.len() ==> a.contains(#[trigger] b[k]),
{
    broadcast use vstd::seq_lib::group_to_multiset_ensures;

    assert forall|i: int| 0 <= i < a.len() implies b.contains(#[trigger] a[i]) by {
        assert(a.contains(a[i]));
        assert(a.to_multiset().count(a[i]) > 0);
    }
    assert forall|k: int| 0 <= k < b.len() implies a.contains(#[trigger] b[k]) by {
        assert(b.contains(b[k]));
        assert(b.to_multiset().count(b[k]) > 0);
    }
}

proof fn lemma_last_with_path(hits: Seq<JunkHit>, path: Seq<Component>, k: int) -> (last: int)
    requires
        0 <= k < hits.len(),
        paths::components(hits[k].path@) == path,
    ensures
        k <= last < hits.len(),
        paths::components(hits[last].path@) == path,
        forall|j: int|
            last < j < hits.len() ==> paths::components(#[trigger] hits[j].path@) != path,
    decreases hits.len() - k,
{
    if exists|j: int|
        k < j < hits.len() && paths::components(#[trigger] hits[j].path@) == path {
        let j = choose|j: int|
            k < j < hits.len() && paths::components(#[trigger] hits[j].path@) == path;
        lemma_last_with_path(hits, path, j)
    } else {
        k
    }
}

/// Looks a path up among hits that `order` sorts by path.
fn find_size(hits: &[JunkHit], order: &Vec<usize>, path: &[u8]) -> (size: Option<u64>)
    requires
        order::is_arranged::<JunkHit, ByPath>(hits@, order::positions(hits@.len()), order@),
    ensures
        size == size_found(hits@, paths::components(path@)),
{
    let ghost p = paths::components(path@);
    proof {
        let n = hits.len();
        assert(n == hits@.len());
        order::lemma_arranged::<JunkHit, ByPath>(hits@, order@);
    }
    // Below `lo` the paths are not after `path`, from `hi` on they are.
    let mut lo: usize = 0;
    let mut hi: usize = order.len();
    while lo < hi
        invariant
            lo <= hi <= order@.len(),
            p == paths::components(path@),
            order::is_arranged::<JunkHit, ByPath>(hits@, order::positions(hits@.len()), order@),
            forall|i: int| 0 <= i < order@.len() ==> #[trigger] order@[i] < hits@.len(),
            forall|m: int|
                0 <= m < lo ==> !paths::path_before(p, #[trigger] path_at(hits@, order@, m)),
            forall|m: int|
                hi <= m < order@.len() ==> paths::path_before(
                    p,
                    #[trigger] path_at(hits@, order@, m),
                ),
        decreases hi - lo,
    {
        let mid: usize = lo + (hi - lo) / 2;
        let ghost q = path_at(hits@, order@, mid as int);
        let place = place_paths(hits[order[mid]].path.as_slice(), path);
        proof {
            paths::path_order_is_total(q, p);
        }
        match place {
            Place::After => {
                proof {
                    assert forall|m: int| mid <= m < order@.len() implies paths::path_before(
                        p,
                        #[trigger] path_at(hits@, order@, m),
                    ) by {
                        if m > mid {
                            lemma_sorted_pair(hits@, order@, mid as int, m);
                            if q != path_at(hits@, order@, m) {
                                paths::path_order_is_transitive(p, q, path_at(hits@, order@, m));
                            }
                        }
                    }
                }
                hi = mid;
            },
            _ => {
                proof {
                    assert forall|m: int| 0 <= m <= mid implies !paths::path_before(
                        p,
                        #[trigger] path_at(hits@, order@, m),
                    ) by {
                        if m < mid {
                            lemma_sorted_pair(hits@, order@, m, mid as int);
                            let r = path_at(hits@, order@, m);
                            if r != q && paths::path_before(p, r) {
                                paths::path_order_is_transitive(p, r, q);
                            }
                        }
                    }
                }
                lo = mid + 1;
            },
        }
    }
    if lo == 0 {
        proof {
            assert forall|j: int| 0 <= j < hits@.len() implies paths::components(
                #[trigger] hits@[j].path@,
            ) != p by {
                assert(order@.contains(j as usize));
                let m = choose|m: int| 0 <= m < order@.len() && order@[m] == j as usize;
                paths::path_order_is_total(p, path_at(hits@, order@, m));
                assert(paths::path_before(p, path_at(hits@, order@, m)));
            }
            lemma_size_found(hits@, p, -1);
        }
        return None;
    }
    let last: usize = order[lo - 1];
    let place = place_paths(hits[last].path.as_slice(), path);
    proof {
        let q = path_at(hits@, order@, lo - 1);
        paths::path_order_is_total(q, p);
        assert(!paths::path_before(p, q));
        assert forall|j: int|
            0 <= j < hits@.len() && paths::components(#[trigger] hits@[j].path@)
                == p implies q == p && j <= last by {
            assert(order@.contains(j as usize));
            let m = choose|m: int| 0 <= m < order@.len() && order@[m] == j as usize;
            let r = path_at(hits@, order@, m);
            assert(r == p);
            paths::path_order_is_total(p, r);
            if m >= lo {
                assert(paths::path_before(p, path_at(hits@, order@, m)));
            }
            if m < lo - 1 {
                lemma_sorted_pair(hits@, order@, m, lo - 1);
                assert(order::goes_first::<JunkHit, ByPath>(hits@, order@[m], order@[lo - 1]));
            }
        }
        if q == p {
            lemma_size_found(hits@, p, last as int);
        } else {
            lemma_size_found(hits@, p, -1);
        }
    }
    match place {
        Place::Same => Some(hits[last].size_bytes),
        _ => None,
    }
}

proof fn lemma_sorted_pair(hits: Seq<JunkHit>, order: Seq<usize>, i: int, j: int)
    requires
        order::is_arranged::<JunkHit, ByPath>(hits, order::positions(hits.len()), order),
        0 <= i < j < order.len(),
    ensures
        path_at(hits, order, i) == path_at(hits, order, j) || paths::path_before(
            path_at(hits, order, i),
            path_at(hits, order, j),
        ),
{
    assert(order::goes_first::<JunkHit, ByPath>(hits, order[i], order[j]));
    paths::path_order_is_total(path_at(hits, order, i), path_at(hits, order, j));
}

/// Copies the sizes of the hits into the junk entries of the tree that have none.
pub fn apply_junk_sizes_to_tree(hits: &[JunkHit], tree: &mut [TreeEntry])
    ensures
        nodes(final(tree)@) == Seq::new(
            old(tree)@.len(),
            |i: int| with_found_size(hits@, old(tree)@[i]@),
        ),
{
    let order = arrange_all::<JunkHit, ByPath>(hits);
    let mut i: usize = 0;
    while i < tree.len()
        invariant
            i <= tree@.len(),
            tree@.len() == old(tree)@.len(),
            order::is_arranged::<JunkHit, ByPath>(hits@, order::positions(hits@.len()), order@),
            forall|k: int|
                0 <= k < i ==> (#[trigger] tree@[k])@ == with_found_size(hits@, old(tree)@[k]@),
            forall|k: int| i <= k < tree@.len() ==> tree@[k] == #[trigger] old(tree)@[k],
        decreases tree@.len() - i,
    {
        assert(tree@[i as int] == old(tree)@[i as int]);
        if tree[i].is_junk && tree[i].size == 0 {
            if let Some(size) = find_size(hits, &order, tree[i].path.as_slice()) {
                tree[i].size = size;
            }
        }
        i = i + 1;
    }
    assert(nodes(tree@) =~= Seq::new(
        old(tree)@.len(),
        |i: int| with_found_size(hits@, old(tree)@[i]@),
    ));
}

} // verus!
