//! What a whole scan finds, from the first directory that is read to the merged result.

use vstd::prelude::*;

use crate::crawl::{Crawl, Disk};
use crate::junk::HitFacts;
use crate::paths::Component;
use crate::platform::EntryFacts;
use crate::scan::{ByPath, Collected, FullScanResult, Node, TreeEntry, TREE_MAX_ENTRIES};
use crate::crawl;
use crate::order;
use crate::paths;
use crate::scan;
use crate::tree;
use crate::walker;

verus! {

/// A file system as a scan sees it.
pub struct Site {
    /// What each directory lists.
    pub list: spec_fn(Seq<u8>) -> Seq<EntryFacts>,
    /// The ecosystem of the junk pattern that a name in a directory matches.
    pub ecosystem: spec_fn(Seq<u8>, Seq<u8>) -> Option<Seq<char>>,
    pub follow_symlinks: bool,
}

impl Site {
    /// The entry of `dir` is a junk directory.
    pub open spec fn is_junk(self, dir: Seq<u8>, e: EntryFacts) -> bool {
        scan::is_junk_dir(e.kind, (self.ecosystem)(dir, e.name) is Some)
    }

    /// The file system as the walk sees it: junk is skipped.
    pub open spec fn disk(self) -> Disk {
        Disk {
            list: self.list,
            skip: |dir: Seq<u8>, e: EntryFacts| self.is_junk(dir, e),
            follow_symlinks: self.follow_symlinks,
        }
    }

    pub open spec fn ecosystems(self, dir: Seq<u8>) -> Seq<Option<Seq<char>>> {
        Seq::new(
            (self.list)(dir).len(),
            |i: int| (self.ecosystem)(dir, (self.list)(dir)[i].name),
        )
    }

    /// The tree entries for what a directory lists.
    pub open spec fn nodes(self, dir: Seq<u8>, root: Seq<u8>) -> Seq<Node> {
        scan::nodes_in(
            dir,
            (self.list)(dir),
            self.ecosystems(dir),
            paths::components(root).len() as usize,
        )
    }

    /// The hits for what a directory lists.
    pub open spec fn hits(self, dir: Seq<u8>) -> Seq<HitFacts> {
        scan::hits_in(dir, (self.list)(dir), self.ecosystems(dir))
    }

    /// The hit for entry `e` of a directory.
    pub open spec fn hit(self, dir: Seq<u8>, e: int) -> HitFacts {
        scan::hit_of(
            dir,
            (self.list)(dir)[e].name,
            (self.ecosystem)(dir, (self.list)(dir)[e].name)->0,
        )
    }

    /// `dir` can be reached from the root without entering junk, and has an entry `e`.
    pub open spec fn has_entry(self, root: Seq<u8>, dir: Seq<u8>, e: int) -> bool {
        &&& crawl::is_reached(self.disk(), seq![root], (0u32, dir))
        &&& 0 <= e < (self.list)(dir).len()
    }
}

/// A scan under way.
pub struct ScanState {
    pub crawl: Crawl,
    /// What each worker has collected.
    pub locals: Seq<Collected>,
}

/// A worker reads a directory; `kept` of its entries find room in the tree.
pub struct Move {
    pub dir: int,
    pub worker: int,
    pub kept: int,
}

/// A scan from its start on.
pub struct Scan {
    pub states: Seq<ScanState>,
    pub moves: Seq<Move>,
}

/// A worker has visited all that a directory lists.
pub open spec fn is_move(
    site: Site,
    root: Seq<u8>,
    before: ScanState,
    after: ScanState,
    m: Move,
) -> bool {
    let dir = before.crawl.found[m.dir].1;
    &&& before.crawl.waits(m.dir)
    &&& after.crawl == before.crawl.after(site.disk(), m.dir)
    &&& 0 <= m.worker < before.locals.len()
    &&& after.locals.len() == before.locals.len()
    &&& forall|v: int|
        0 <= v < before.locals.len() && v != m.worker ==> #[trigger] after.locals[v]
            == before.locals[v]
    &&& 0 <= m.kept <= site.nodes(dir, root).len()
    &&& scan::nodes(after.locals[m.worker].tree@) == scan::nodes(
        before.locals[m.worker].tree@,
    ) + site.nodes(dir, root).take(m.kept)
    &&& scan::hit_facts(after.locals[m.worker].hits@) == scan::hit_facts(
        before.locals[m.worker].hits@,
    ) + site.hits(dir)
}

impl Scan {
    pub open spec fn crawls(self) -> Seq<Crawl> {
        self.states.map_values(|s: ScanState| s.crawl)
    }

    pub open spec fn picks(self) -> Seq<int> {
        self.moves.map_values(|m: Move| m.dir)
    }

    pub open spec fn last(self) -> ScanState {
        self.states.last()
    }

    /// The workers start with nothing, and move in any order. An entry finds no room only where
    /// the trees are full.
    pub open spec fn is_scan_of(self, site: Site, root: Seq<u8>) -> bool {
        &&& self.states.len() == self.moves.len() + 1
        &&& self.states[0].crawl == Crawl::start(seq![root])
        &&& forall|w: int|
            0 <= w < self.states[0].locals.len() ==> (
            #[trigger] self.states[0].locals[w]).tree@.len() == 0
                && self.states[0].locals[w].hits@.len() == 0
        &&& forall|k: int|
            0 <= k < self.moves.len() ==> is_move(
                site,
                root,
                self.states[k],
                self.states[k + 1],
                #[trigger] self.moves[k],
            )
        &&& self.is_full() || forall|k: int|
            0 <= k < self.moves.len() ==> (#[trigger] self.moves[k]).kept == site.nodes(
                self.states[k].crawl.found[self.moves[k].dir].1,
                root,
            ).len()
    }

    /// The trees are full.
    pub open spec fn is_full(self) -> bool {
        scan::all_entries(self.last().locals).len() >= TREE_MAX_ENTRIES
    }

    /// The scan is over: every directory that was found has been read.
    pub open spec fn is_over(self) -> bool {
        self.last().crawl.is_over()
    }
}

proof fn lemma_same_hits(
    dir: Seq<u8>,
    listing: Seq<EntryFacts>,
    a: Seq<Option<Seq<char>>>,
    b: Seq<Option<Seq<char>>>,
)
    requires
        forall|i: int|
            0 <= i < listing.len() && (#[trigger] listing[i]).kind is Dir ==> a[i] == b[i],
    ensures
        scan::hits_in(dir, listing, a) == scan::hits_in(dir, listing, b),
        scan::junk_in(listing, a) == scan::junk_in(listing, b),
    decreases listing.len(),
{
    assert(scan::junk_in(listing, a) =~= scan::junk_in(listing, b));
    if listing.len() > 0 {
        let front = listing.drop_last();
        assert forall|i: int| 0 <= i < front.len() && (#[trigger] front[i]).kind is Dir implies a[i]
            == b[i] by {
            assert(listing[i].kind is Dir);
        }
        lemma_same_hits(dir, front, a, b);
        assert(listing[listing.len() - 1].kind is Dir ==> a[listing.len() - 1] == b[listing.len()
            - 1]);
    }
}

/// What a worker does with a directory that it has taken is a move: it visits the listing with
/// the ecosystems of its directories, and hands on the tasks that are not skipped.
pub proof fn visiting_a_listing_is_a_move(
    site: Site,
    root: Seq<u8>,
    before: ScanState,
    after: ScanState,
    m: Move,
    names: Seq<Option<Seq<char>>>,
    taken: usize,
)
    requires
        before.crawl.waits(m.dir),
        0 <= m.worker < before.locals.len(),
        ({
            let (root_idx, dir) = before.crawl.found[m.dir];
            let listing = (site.list)(dir);
            let depth = paths::components(root).len() as usize;
            &&& names.len() == listing.len()
            &&& forall|i: int|
                0 <= i < listing.len() && (#[trigger] listing[i]).kind is Dir ==> names[i] == (
                site.ecosystem)(dir, listing[i].name)
            &&& m.kept == scan::room_for(listing.len(), taken)
            &&& scan::nodes(after.locals[m.worker].tree@) == scan::nodes(
                before.locals[m.worker].tree@,
            ) + scan::nodes_in(dir, listing, names, depth).take(m.kept)
            &&& scan::hit_facts(after.locals[m.worker].hits@) == scan::hit_facts(
                before.locals[m.worker].hits@,
            ) + scan::hits_in(dir, listing, names)
            &&& after.crawl.found == before.crawl.found + walker::child_tasks(
                root_idx,
                dir,
                listing,
                scan::junk_in(listing, names),
                site.follow_symlinks,
            )
        }),
        after.crawl.read == before.crawl.read.insert(m.dir),
        after.locals.len() == before.locals.len(),
        forall|v: int|
            0 <= v < before.locals.len() && v != m.worker ==> #[trigger] after.locals[v]
                == before.locals[v],
    ensures
        is_move(site, root, before, after, m),
{
    let dir = before.crawl.found[m.dir].1;
    let listing = (site.list)(dir);
    let depth = paths::components(root).len() as usize;
    assert forall|i: int| 0 <= i < listing.len() && (#[trigger] listing[i]).kind is Dir implies
        names[i] == site.ecosystems(dir)[i] by {}
    lemma_same_hits(dir, listing, names, site.ecosystems(dir));
    assert(scan::junk_in(listing, names) =~= site.disk().skips(dir));
    assert(scan::nodes_in(dir, listing, names, depth) =~= site.nodes(dir, root));
}

// ── What the workers hold ───────────────────────────────────────────────

spec fn tree_parts(locals: Seq<Collected>) -> Seq<Seq<Node>> {
    locals.map_values(|c: Collected| scan::nodes(c.tree@))
}

spec fn hit_parts(locals: Seq<Collected>) -> Seq<Seq<HitFacts>> {
    locals.map_values(|c: Collected| scan::hit_facts(c.hits@))
}

proof fn lemma_nodes_flatten(locals: Seq<Collected>)
    ensures
        scan::nodes(scan::all_entries(locals)) == tree_parts(locals).flatten(),
    decreases locals.len(),
{
    if locals.len() > 0 {
        let rest = locals.drop_first();
        let trees = locals.map_values(|c: Collected| c.tree@);
        lemma_nodes_flatten(rest);
        assert(trees.drop_first() =~= rest.map_values(|c: Collected| c.tree@));
        assert(tree_parts(locals).drop_first() =~= tree_parts(rest));
        assert(scan::nodes(locals[0].tree@ + scan::all_entries(rest)) =~= scan::nodes(
            locals[0].tree@,
        ) + scan::nodes(scan::all_entries(rest)));
    } else {
        assert(scan::nodes(scan::all_entries(locals)) =~= tree_parts(locals).flatten());
    }
}

proof fn lemma_hits_flatten(locals: Seq<Collected>)
    ensures
        scan::hit_facts(scan::all_hits(locals)) == hit_parts(locals).flatten(),
    decreases locals.len(),
{
    if locals.len() > 0 {
        let rest = locals.drop_first();
        let hits = locals.map_values(|c: Collected| c.hits@);
        lemma_hits_flatten(rest);
        assert(hits.drop_first() =~= rest.map_values(|c: Collected| c.hits@));
        assert(hit_parts(locals).drop_first() =~= hit_parts(rest));
        assert(scan::hit_facts(locals[0].hits@ + scan::all_hits(rest)) =~= scan::hit_facts(
            locals[0].hits@,
        ) + scan::hit_facts(scan::all_hits(rest)));
    } else {
        assert(scan::hit_facts(scan::all_hits(locals)) =~= hit_parts(locals).flatten());
    }
}

/// Where one part grows, the whole grows somewhere.
proof fn lemma_flatten_grows<T>(parts: Seq<Seq<T>>, w: int, more: Seq<T>) -> (at: int)
    requires
        0 <= w < parts.len(),
    ensures
        0 <= at <= parts.flatten().len(),
        parts.update(w, parts[w] + more).flatten() == parts.flatten().take(at) + more
            + parts.flatten().skip(at),
    decreases parts.len(),
{
    let grown = parts.update(w, parts[w] + more);
    let rest = parts.drop_first();
    let whole = parts.flatten();
    let n = parts[0].len() as int;
    assert(whole == parts[0] + rest.flatten());
    if w == 0 {
        assert(grown.drop_first() =~= rest);
        assert(whole.take(n) =~= parts[0]);
        assert(whole.skip(n) =~= rest.flatten());
        assert(grown.flatten() =~= whole.take(n) + more + whole.skip(n));
        n
    } else {
        let at = lemma_flatten_grows(rest, w - 1, more);
        assert(grown.drop_first() =~= rest.update(w - 1, rest[w - 1] + more));
        assert(whole.take(n + at) =~= parts[0] + rest.flatten().take(at));
        assert(whole.skip(n + at) =~= rest.flatten().skip(at));
        assert(grown.flatten() =~= whole.take(n + at) + more + whole.skip(n + at));
        n + at
    }
}

proof fn lemma_start_is_empty<T>(parts: Seq<Seq<T>>)
    requires
        forall|w: int| 0 <= w < parts.len() ==> (#[trigger] parts[w]).len() == 0,
    ensures
        parts.flatten().len() == 0,
    decreases parts.len(),
{
    if parts.len() > 0 {
        assert forall|w: int| 0 <= w < parts.drop_first().len() implies (
        #[trigger] parts.drop_first()[w]).len() == 0 by {
            assert(parts[w + 1].len() == 0);
        }
        lemma_start_is_empty(parts.drop_first());
    }
}

// ── Places ──────────────────────────────────────────────────────────────

/// The path of entry `e` of directory `j`.
spec fn place(site: Site, c: Crawl, j: int, e: int) -> Seq<Component> {
    paths::components(paths::joined(c.found[j].1, (site.list)(c.found[j].1)[e].name))
}

/// Directory `j` was read and lists an entry `e`.
spec fn was_read(site: Site, c: Crawl, j: int, e: int) -> bool {
    &&& 0 <= j < c.found.len()
    &&& c.read.contains(j)
    &&& 0 <= e < (site.list)(c.found[j].1).len()
}

/// The directories found are at places of their own.
spec fn is_spread(c: Crawl) -> bool {
    &&& forall|i: int, j: int|
        0 <= i < j < c.found.len() ==> #[trigger] crawl::found_path(c, i)
            != #[trigger] crawl::found_path(c, j)
    &&& forall|i: int| #[trigger] c.read.contains(i) ==> 0 <= i < c.found.len()
}

proof fn lemma_place(site: Site, c: Crawl, j: int, e: int)
    requires
        site.disk().is_proper(),
        0 <= e < (site.list)(c.found[j].1).len(),
    ensures
        place(site, c, j, e) == crawl::found_path(c, j).push(
            Component::Normal((site.list)(c.found[j].1)[e].name),
        ),
{
    let disk = site.disk();
    assert(paths::is_file_name((disk.list)(c.found[j].1)[e].name));
    paths::joining_adds_one_component(c.found[j].1, (site.list)(c.found[j].1)[e].name);
}

/// Entries at the same place are the same entry.
proof fn lemma_same_place(site: Site, c: Crawl, j: int, e: int, k: int, f: int)
    requires
        site.disk().is_proper(),
        is_spread(c),
        0 <= j < c.found.len(),
        0 <= k < c.found.len(),
        0 <= e < (site.list)(c.found[j].1).len(),
        0 <= f < (site.list)(c.found[k].1).len(),
        place(site, c, j, e) == place(site, c, k, f),
    ensures
        j == k,
        e == f,
{
    let disk = site.disk();
    lemma_place(site, c, j, e);
    lemma_place(site, c, k, f);
    let x = crawl::found_path(c, j);
    let y = crawl::found_path(c, k);
    let a = (disk.list)(c.found[j].1)[e].name;
    let b = (disk.list)(c.found[k].1)[f].name;
    assert(x.push(Component::Normal(a)).drop_last() =~= x);
    assert(y.push(Component::Normal(b)).drop_last() =~= y);
    assert(x == y);
    assert(x.push(Component::Normal(a)).last() == Component::Normal(a));
    assert(y.push(Component::Normal(b)).last() == Component::Normal(b));
    assert(a == b);
    if j < k {
        assert(crawl::found_path(c, j) != crawl::found_path(c, k));
    }
    if k < j {
        assert(crawl::found_path(c, k) != crawl::found_path(c, j));
    }
    if e < f {
        assert((disk.list)(c.found[j].1)[e].name != (disk.list)(c.found[j].1)[f].name);
    }
    if f < e {
        assert((disk.list)(c.found[j].1)[f].name != (disk.list)(c.found[j].1)[e].name);
    }
}

/// The node is the one for an entry of a directory that was read.
spec fn is_placed(site: Site, root: Seq<u8>, c: Crawl, node: Node) -> bool {
    exists|j: int, e: int| #[trigger]
        was_read(site, c, j, e) && node == site.nodes(c.found[j].1, root)[e]
}

/// The nodes are those for entries of directories that were read, each at a place of its own.
spec fn are_placed(site: Site, root: Seq<u8>, c: Crawl, nodes: Seq<Node>) -> bool {
    &&& forall|x: int| 0 <= x < nodes.len() ==> is_placed(site, root, c, #[trigger] nodes[x])
    &&& forall|x: int, y: int|
        0 <= x < y < nodes.len() ==> paths::components((#[trigger] nodes[x]).path)
            != paths::components((#[trigger] nodes[y]).path)
}

/// All entries of the directories that were read are there.
spec fn are_complete(site: Site, root: Seq<u8>, c: Crawl, nodes: Seq<Node>) -> bool {
    forall|j: int, e: int| #[trigger]
        was_read(site, c, j, e) ==> nodes.contains(site.nodes(c.found[j].1, root)[e])
}

/// What was placed stays placed.
proof fn lemma_stays_placed(site: Site, root: Seq<u8>, c: Crawl, i: int, node: Node)
    requires
        is_spread(c),
        is_placed(site, root, c, node),
        c.waits(i),
    ensures
        is_placed(site, root, c.after(site.disk(), i), node),
{
    let d = c.after(site.disk(), i);
    let (j, e) = choose|j: int, e: int| #[trigger]
        was_read(site, c, j, e) && node == site.nodes(c.found[j].1, root)[e];
    assert(d.found[j] == c.found[j]);
    assert(was_read(site, d, j, e));
}

/// Visiting a directory adds nodes at places that nothing was at before.
proof fn lemma_move_keeps_places(
    site: Site,
    root: Seq<u8>,
    c: Crawl,
    i: int,
    nodes: Seq<Node>,
    kept: int,
    at: int,
)
    requires
        site.disk().is_proper(),
        is_spread(c),
        is_spread(c.after(site.disk(), i)),
        c.waits(i),
        are_placed(site, root, c, nodes),
        0 <= kept <= site.nodes(c.found[i].1, root).len(),
        0 <= at <= nodes.len(),
    ensures
        are_placed(
            site,
            root,
            c.after(site.disk(), i),
            nodes.take(at) + site.nodes(c.found[i].1, root).take(kept) + nodes.skip(at),
        ),
{
    let d = c.after(site.disk(), i);
    let more = site.nodes(c.found[i].1, root);
    let all = nodes.take(at) + more.take(kept) + nodes.skip(at);
    assert(d.found[i] == c.found[i]);
    assert forall|x: int| 0 <= x < all.len() implies is_placed(
        site,
        root,
        d,
        #[trigger] all[x],
    ) by {
        if at <= x < at + kept {
            assert(was_read(site, d, i, x - at));
        } else if x < at {
            assert(all[x] == nodes[x]);
            lemma_stays_placed(site, root, c, i, nodes[x]);
        } else {
            assert(all[x] == nodes[x - kept]);
            lemma_stays_placed(site, root, c, i, nodes[x - kept]);
        }
    }
    assert forall|x: int, y: int| 0 <= x < y < all.len() implies paths::components(
        (#[trigger] all[x]).path,
    ) != paths::components((#[trigger] all[y]).path) by {
        let x_is_new = at <= x < at + kept;
        let y_is_new = at <= y < at + kept;
        if x_is_new && y_is_new {
            if paths::components(all[x].path) == paths::components(all[y].path) {
                lemma_same_place(site, c, i, x - at, i, y - at);
            }
        } else if x_is_new || y_is_new {
            let fresh = if x_is_new {
                x
            } else {
                y
            };
            let other = if x_is_new {
                y
            } else {
                x
            };
            let o = if other < at {
                other
            } else {
                other - kept
            };
            assert(all[other] == nodes[o]);
            assert(is_placed(site, root, c, nodes[o]));
            let (j, e) = choose|j: int, e: int| #[trigger]
                was_read(site, c, j, e) && nodes[o] == site.nodes(c.found[j].1, root)[e];
            if paths::components(all[x].path) == paths::components(all[y].path) {
                lemma_same_place(site, c, i, fresh - at, j, e);
            }
        } else {
            let a = if x < at {
                x
            } else {
                x - kept
            };
            let b = if y < at {
                y
            } else {
                y - kept
            };
            assert(all[x] == nodes[a] && all[y] == nodes[b]);
        }
    }
}

/// Where all entries find room, none is missing.
proof fn lemma_move_keeps_all(
    site: Site,
    root: Seq<u8>,
    c: Crawl,
    i: int,
    nodes: Seq<Node>,
    at: int,
)
    requires
        is_spread(c),
        c.waits(i),
        are_complete(site, root, c, nodes),
        0 <= at <= nodes.len(),
    ensures
        are_complete(
            site,
            root,
            c.after(site.disk(), i),
            nodes.take(at) + site.nodes(c.found[i].1, root) + nodes.skip(at),
        ),
{
    let d = c.after(site.disk(), i);
    let more = site.nodes(c.found[i].1, root);
    let all = nodes.take(at) + more + nodes.skip(at);
    assert forall|j: int, e: int| #[trigger] was_read(site, d, j, e) implies all.contains(
        site.nodes(d.found[j].1, root)[e],
    ) by {
        if j == i {
            assert(all[at + e] == more[e]);
        } else {
            assert(was_read(site, c, j, e));
            let x = choose|x: int|
                0 <= x < nodes.len() && nodes[x] == site.nodes(c.found[j].1, root)[e];
            if x < at {
                assert(all[x] == nodes[x]);
            } else {
                assert(all[x + more.len()] == nodes[x]);
            }
        }
    }
}

/// The hit is the one for junk in a directory that was read.
spec fn is_junk_in(site: Site, c: Crawl, hit: HitFacts) -> bool {
    exists|j: int, e: int| #[trigger]
        was_read(site, c, j, e) && site.is_junk(c.found[j].1, (site.list)(c.found[j].1)[e]) && hit
            == site.hit(c.found[j].1, e)
}

/// The hits are those for the junk in the directories that were read.
spec fn are_hits(site: Site, c: Crawl, hits: Seq<HitFacts>) -> bool {
    &&& forall|x: int| 0 <= x < hits.len() ==> is_junk_in(site, c, #[trigger] hits[x])
    &&& forall|j: int, e: int| #[trigger]
        was_read(site, c, j, e) && site.is_junk(c.found[j].1, (site.list)(c.found[j].1)[e])
            ==> hits.contains(site.hit(c.found[j].1, e))
}

/// The hit is for junk among the first `n` entries of a directory.
spec fn is_hit_among(site: Site, dir: Seq<u8>, n: int, hit: HitFacts) -> bool {
    exists|e: int|
        0 <= e < n && site.is_junk(dir, #[trigger] (site.list)(dir)[e]) && hit == site.hit(dir, e)
}

proof fn lemma_hits_in(site: Site, dir: Seq<u8>, n: int)
    requires
        0 <= n <= (site.list)(dir).len(),
    ensures
        ({
            let hits = scan::hits_in(dir, (site.list)(dir).take(n), site.ecosystems(dir));
            &&& forall|x: int|
                0 <= x < hits.len() ==> is_hit_among(site, dir, n, #[trigger] hits[x])
            &&& forall|e: int|
                0 <= e < n && site.is_junk(dir, #[trigger] (site.list)(dir)[e]) ==> hits.contains(
                    site.hit(dir, e),
                )
        }),
    decreases n,
{
    let listing = (site.list)(dir);
    let names = site.ecosystems(dir);
    if n > 0 {
        lemma_hits_in(site, dir, n - 1);
        assert(listing.take(n).drop_last() =~= listing.take(n - 1));
        let before = scan::hits_in(dir, listing.take(n - 1), names);
        let all = scan::hits_in(dir, listing.take(n), names);
        assert(listing.take(n)[n - 1] == listing[n - 1]);
        assert forall|x: int| 0 <= x < all.len() implies is_hit_among(
            site,
            dir,
            n,
            #[trigger] all[x],
        ) by {
            if x < before.len() {
                assert(all[x] == before[x]);
                assert(is_hit_among(site, dir, n - 1, before[x]));
            } else {
                assert(site.is_junk(dir, listing[n - 1]));
            }
        }
        assert forall|e: int|
            0 <= e < n && site.is_junk(dir, #[trigger] listing[e]) implies all.contains(
            site.hit(dir, e),
        ) by {
            if e < n - 1 {
                let x = choose|x: int| 0 <= x < before.len() && before[x] == site.hit(dir, e);
                assert(all[x] == before[x]);
            } else {
                assert(all[before.len() as int] == site.hit(dir, e));
            }
        }
    }
}

proof fn lemma_move_keeps_hits(site: Site, c: Crawl, i: int, hits: Seq<HitFacts>, at: int)
    requires
        is_spread(c),
        c.waits(i),
        are_hits(site, c, hits),
        0 <= at <= hits.len(),
    ensures
        are_hits(
            site,
            c.after(site.disk(), i),
            hits.take(at) + site.hits(c.found[i].1) + hits.skip(at),
        ),
{
    let d = c.after(site.disk(), i);
    let dir = c.found[i].1;
    let more = site.hits(dir);
    let all = hits.take(at) + more + hits.skip(at);
    assert(d.found[i] == c.found[i]);
    lemma_hits_in(site, dir, (site.list)(dir).len() as int);
    assert((site.list)(dir).take((site.list)(dir).len() as int) =~= (site.list)(dir));
    assert forall|x: int| 0 <= x < all.len() implies is_junk_in(site, d, #[trigger] all[x]) by {
        if at <= x < at + more.len() {
            assert(all[x] == more[x - at]);
            assert(is_hit_among(site, dir, (site.list)(dir).len() as int, more[x - at]));
            let e = choose|e: int|
                0 <= e < (site.list)(dir).len() && site.is_junk(
                    dir,
                    #[trigger] (site.list)(dir)[e],
                ) && more[x - at] == site.hit(dir, e);
            assert(was_read(site, d, i, e));
        } else {
            let o = if x < at {
                x
            } else {
                x - more.len()
            };
            assert(all[x] == hits[o]);
            assert(is_junk_in(site, c, hits[o]));
            let (j, e) = choose|j: int, e: int| #[trigger]
                was_read(site, c, j, e) && site.is_junk(
                    c.found[j].1,
                    (site.list)(c.found[j].1)[e],
                ) && hits[o] == site.hit(c.found[j].1, e);
            assert(d.found[j] == c.found[j]);
            assert(was_read(site, d, j, e));
        }
    }
    assert forall|j: int, e: int| #[trigger]
        was_read(site, d, j, e) && site.is_junk(
            d.found[j].1,
            (site.list)(d.found[j].1)[e],
        ) implies all.contains(site.hit(d.found[j].1, e)) by {
        if j == i {
            assert(site.is_junk(dir, (site.list)(dir)[e]));
            let x = choose|x: int| 0 <= x < more.len() && more[x] == site.hit(dir, e);
            assert(all[at + x] == more[x]);
        } else {
            assert(was_read(site, c, j, e));
            let x = choose|x: int| 0 <= x < hits.len() && hits[x] == site.hit(c.found[j].1, e);
            if x < at {
                assert(all[x] == hits[x]);
            } else {
                assert(all[x + more.len()] == hits[x]);
            }
        }
    }
}

// ── From start to end ───────────────────────────────────────────────────

proof fn lemma_scan_is_crawl(site: Site, root: Seq<u8>, scan: Scan)
    requires
        scan.is_scan_of(site, root),
    ensures
        crawl::is_crawl(site.disk(), seq![root], scan.crawls(), scan.picks()),
        scan.crawls().last() == scan.last().crawl,
{
    let crawls = scan.crawls();
    let picks = scan.picks();
    assert forall|k: int| 0 <= k < picks.len() implies crawls[k].waits(#[trigger] picks[k])
        && crawls[k + 1] == crawls[k].after(site.disk(), picks[k]) by {
        assert(is_move(site, root, scan.states[k], scan.states[k + 1], scan.moves[k]));
    }
}

/// What the workers hold after `k` moves.
proof fn lemma_states(site: Site, root: Seq<u8>, scan: Scan, k: int)
    requires
        site.disk().is_proper(),
        scan.is_scan_of(site, root),
        0 <= k < scan.states.len(),
    ensures
        are_placed(
            site,
            root,
            scan.states[k].crawl,
            scan::nodes(scan::all_entries(scan.states[k].locals)),
        ),
        !scan.is_full() ==> are_complete(
            site,
            root,
            scan.states[k].crawl,
            scan::nodes(scan::all_entries(scan.states[k].locals)),
        ),
        are_hits(
            site,
            scan.states[k].crawl,
            scan::hit_facts(scan::all_hits(scan.states[k].locals)),
        ),
        is_spread(scan.states[k].crawl),
    decreases k,
{
    let locals = scan.states[k].locals;
    lemma_scan_is_crawl(site, root, scan);
    crawl::lemma_places_differ(site.disk(), root, scan.crawls(), scan.picks(), k);
    assert(scan.crawls()[k] == scan.states[k].crawl);
    lemma_nodes_flatten(locals);
    lemma_hits_flatten(locals);
    if k == 0 {
        assert forall|w: int| 0 <= w < locals.len() implies (
        #[trigger] tree_parts(locals)[w]).len() == 0 by {
            assert(locals[w].tree@.len() == 0);
        }
        assert forall|w: int| 0 <= w < locals.len() implies (
        #[trigger] hit_parts(locals)[w]).len() == 0 by {
            assert(locals[w].hits@.len() == 0);
        }
        lemma_start_is_empty(tree_parts(locals));
        lemma_start_is_empty(hit_parts(locals));
    } else {
        let before = scan.states[k - 1];
        let m = scan.moves[k - 1];
        let dir = before.crawl.found[m.dir].1;
        let more = site.nodes(dir, root);
        lemma_states(site, root, scan, k - 1);
        assert(is_move(site, root, before, scan.states[k - 1 + 1], m));
        lemma_nodes_flatten(before.locals);
        lemma_hits_flatten(before.locals);
        let trees = tree_parts(before.locals);
        let hits = hit_parts(before.locals);
        let at = lemma_flatten_grows(trees, m.worker, more.take(m.kept));
        let spot = lemma_flatten_grows(hits, m.worker, site.hits(dir));
        assert(tree_parts(locals) =~= trees.update(
            m.worker,
            trees[m.worker] + more.take(m.kept),
        ));
        assert(hit_parts(locals) =~= hits.update(m.worker, hits[m.worker] + site.hits(dir)));
        lemma_move_keeps_places(site, root, before.crawl, m.dir, trees.flatten(), m.kept, at);
        lemma_move_keeps_hits(site, before.crawl, m.dir, hits.flatten(), spot);
        if !scan.is_full() {
            assert(m.kept == more.len());
            assert(more.take(m.kept) =~= more);
            lemma_move_keeps_all(site, root, before.crawl, m.dir, trees.flatten(), at);
        }
    }
}

/// Sorting keeps the entries, and puts entries at different places in strict order.
proof fn lemma_sorted(entries: Seq<TreeEntry>, sorted: Seq<TreeEntry>)
    requires
        entries.len() <= usize::MAX,
        order::is_sorted_from::<TreeEntry, ByPath>(entries, sorted),
        forall|x: int, y: int|
            0 <= x < y < entries.len() ==> paths::components((#[trigger] entries[x]).path@)
                != paths::components((#[trigger] entries[y]).path@),
    ensures
        forall|a: int| 0 <= a < sorted.len() ==> entries.contains(#[trigger] sorted[a]),
        forall|x: int| 0 <= x < entries.len() ==> sorted.contains(#[trigger] entries[x]),
        forall|a: int, b: int|
            0 <= a < b < sorted.len() ==> paths::path_before(
                #[trigger] tree::path_of(sorted, a),
                #[trigger] tree::path_of(sorted, b),
            ),
{
    let order = choose|order: Seq<usize>| #[trigger]
        order::is_arranged::<TreeEntry, ByPath>(
            entries,
            order::positions(entries.len()),
            order,
        ) && order::is_permuted(entries, order, sorted);
    order::lemma_arranged::<TreeEntry, ByPath>(entries, order);
    assert forall|a: int| 0 <= a < sorted.len() implies #[trigger] sorted[a]
        == entries[order[a] as int] by {}
    assert forall|a: int| 0 <= a < sorted.len() implies entries.contains(#[trigger] sorted[a]) by {
        assert(entries[order[a] as int] == sorted[a]);
    }
    assert forall|x: int| 0 <= x < entries.len() implies sorted.contains(#[trigger] entries[x]) by {
        assert(order.contains(x as usize));
        let a = choose|a: int| 0 <= a < order.len() && order[a] == x as usize;
        assert(sorted[a] == entries[x]);
    }
    assert forall|a: int, b: int| 0 <= a < b < sorted.len() implies paths::path_before(
        #[trigger] tree::path_of(sorted, a),
        #[trigger] tree::path_of(sorted, b),
    ) by {
        assert(order::goes_first::<TreeEntry, ByPath>(entries, order[a], order[b]));
        assert(order[a] != order[b]);
        let x = entries[order[a] as int];
        let y = entries[order[b] as int];
        assert(paths::components(x.path@) != paths::components(y.path@));
        paths::path_order_is_total(paths::components(x.path@), paths::components(y.path@));
    }
}

// ── The result ──────────────────────────────────────────────────────────

/// The node is the one for an entry of a directory that can be reached.
pub open spec fn is_listed(site: Site, root: Seq<u8>, node: Node) -> bool {
    exists|dir: Seq<u8>, e: int| #[trigger]
        site.has_entry(root, dir, e) && node == site.nodes(dir, root)[e]
}

/// The hit is the one for junk in a directory that can be reached.
pub open spec fn is_known_junk(site: Site, root: Seq<u8>, hit: HitFacts) -> bool {
    exists|dir: Seq<u8>, e: int| #[trigger]
        site.has_entry(root, dir, e) && site.is_junk(dir, (site.list)(dir)[e]) && hit == site.hit(
            dir,
            e,
        )
}

/// A scan that is over, and its result.
pub open spec fn is_finished(site: Site, root: Seq<u8>, scan: Scan, result: FullScanResult) -> bool {
    &&& site.disk().is_proper()
    &&& scan.is_scan_of(site, root)
    &&& scan.is_over()
    &&& scan::is_result_of(scan.last().locals, result)
}

/// The directories that were read are those that can be reached.
proof fn lemma_read_is_reached(site: Site, root: Seq<u8>, scan: Scan)
    requires
        site.disk().is_proper(),
        scan.is_scan_of(site, root),
        scan.is_over(),
    ensures
        is_spread(scan.last().crawl),
        forall|j: int, e: int| #[trigger]
            was_read(site, scan.last().crawl, j, e) ==> site.has_entry(
                root,
                scan.last().crawl.found[j].1,
                e,
            ),
        forall|dir: Seq<u8>, e: int| #[trigger]
            site.has_entry(root, dir, e) ==> exists|j: int| #[trigger]
                was_read(site, scan.last().crawl, j, e) && scan.last().crawl.found[j].1 == dir,
{
    let c = scan.last().crawl;
    lemma_scan_is_crawl(site, root, scan);
    lemma_states(site, root, scan, scan.states.len() - 1);
    crawl::lemma_found_are_reached(site.disk(), root, scan.crawls(), scan.picks());
    assert forall|j: int, e: int| #[trigger] was_read(site, c, j, e) implies site.has_entry(
        root,
        c.found[j].1,
        e,
    ) by {
        assert(c.found[j] == (0u32, c.found[j].1));
    }
    assert forall|dir: Seq<u8>, e: int| #[trigger] site.has_entry(root, dir, e) implies exists|
        j: int,
    | #[trigger] was_read(site, c, j, e) && c.found[j].1 == dir by {
        assert(c.found.contains((0u32, dir)));
        let j = choose|j: int| 0 <= j < c.found.len() && c.found[j] == (0u32, dir);
        assert(c.read.contains(j));
        assert(was_read(site, c, j, e));
    }
}

/// The tree of the result holds what the workers have collected.
proof fn lemma_tree(site: Site, root: Seq<u8>, scan: Scan, result: FullScanResult)
    requires
        is_finished(site, root, scan, result),
    ensures
        forall|a: int|
            0 <= a < result.tree@.len() ==> is_placed(
                site,
                root,
                scan.last().crawl,
                (#[trigger] result.tree@[a])@,
            ),
        !scan.is_full() ==> are_complete(
            site,
            root,
            scan.last().crawl,
            scan::nodes(result.tree@),
        ),
        forall|a: int, b: int|
            0 <= a < b < result.tree@.len() ==> paths::path_before(
                #[trigger] tree::path_of(result.tree@, a),
                #[trigger] tree::path_of(result.tree@, b),
            ),
{
    let c = scan.last().crawl;
    let all = scan::all_entries(scan.last().locals);
    let kept = scan::kept_entries(scan.last().locals);
    let sorted = result.tree@;
    lemma_states(site, root, scan, scan.states.len() - 1);
    assert forall|x: int| 0 <= x < all.len() implies (#[trigger] all[x])@ == scan::nodes(
        all,
    )[x] by {}
    assert forall|x: int, y: int| 0 <= x < y < kept.len() implies paths::components(
        (#[trigger] kept[x]).path@,
    ) != paths::components((#[trigger] kept[y]).path@) by {
        assert(kept[x] == all[x] && kept[y] == all[y]);
        assert(scan::nodes(all)[x].path == all[x].path@);
        assert(scan::nodes(all)[y].path == all[y].path@);
    }
    lemma_sorted(kept, sorted);
    assert forall|a: int| 0 <= a < sorted.len() implies is_placed(
        site,
        root,
        c,
        (#[trigger] sorted[a])@,
    ) by {
        assert(kept.contains(sorted[a]));
        let x = choose|x: int| 0 <= x < kept.len() && kept[x] == sorted[a];
        assert(kept[x] == all[x]);
        assert(is_placed(site, root, c, scan::nodes(all)[x]));
    }
    if !scan.is_full() {
        assert forall|j: int, e: int| #[trigger] was_read(site, c, j, e) implies scan::nodes(
            sorted,
        ).contains(site.nodes(c.found[j].1, root)[e]) by {
            let node = site.nodes(c.found[j].1, root)[e];
            let x = choose|x: int| 0 <= x < all.len() && scan::nodes(all)[x] == node;
            assert(kept[x] == all[x]);
            assert(sorted.contains(kept[x]));
            let a = choose|a: int| 0 <= a < sorted.len() && sorted[a] == kept[x];
            assert(scan::nodes(sorted)[a] == node);
        }
    }
}

/// The tree of a scan holds an entry for what each directory lists that can be reached from the
/// root without entering junk, and nothing else: one for each path, in the order of paths. Only
/// where the tree is full can entries be missing.
pub proof fn scan_lists_every_entry_once(
    site: Site,
    root: Seq<u8>,
    scan: Scan,
    result: FullScanResult,
)
    requires
        is_finished(site, root, scan, result),
    ensures
        forall|a: int|
            0 <= a < result.tree@.len() ==> is_listed(site, root, (#[trigger] result.tree@[a])@),
        !scan.is_full() ==> forall|dir: Seq<u8>, e: int| #[trigger]
            site.has_entry(root, dir, e) ==> scan::nodes(result.tree@).contains(
                site.nodes(dir, root)[e],
            ),
        forall|a: int, b: int|
            0 <= a < b < result.tree@.len() ==> paths::path_before(
                #[trigger] tree::path_of(result.tree@, a),
                #[trigger] tree::path_of(result.tree@, b),
            ),
{
    let c = scan.last().crawl;
    lemma_read_is_reached(site, root, scan);
    lemma_tree(site, root, scan, result);
    assert forall|a: int| 0 <= a < result.tree@.len() implies is_listed(
        site,
        root,
        (#[trigger] result.tree@[a])@,
    ) by {
        let node = result.tree@[a]@;
        let (j, e) = choose|j: int, e: int| #[trigger]
            was_read(site, c, j, e) && node == site.nodes(c.found[j].1, root)[e];
        assert(site.has_entry(root, c.found[j].1, e));
    }
    if !scan.is_full() {
        assert forall|dir: Seq<u8>, e: int| #[trigger]
            site.has_entry(root, dir, e) implies scan::nodes(result.tree@).contains(
            site.nodes(dir, root)[e],
        ) by {
            let j = choose|j: int| #[trigger] was_read(site, c, j, e) && c.found[j].1 == dir;
            assert(was_read(site, c, j, e));
        }
    }
}

/// The hits of the result are those for junk in the directories that were read.
proof fn lemma_hits(site: Site, root: Seq<u8>, scan: Scan, result: FullScanResult)
    requires
        is_finished(site, root, scan, result),
    ensures
        are_hits(site, scan.last().crawl, scan::hit_facts(result.hits@)),
{
    let c = scan.last().crawl;
    let all = scan::all_hits(scan.last().locals);
    let kept = result.hits@;
    let facts = scan::hit_facts(kept);
    lemma_states(site, root, scan, scan.states.len() - 1);
    assert forall|x: int| 0 <= x < facts.len() implies is_junk_in(site, c, #[trigger] facts[x]) by {
        assert(scan::is_first_of(all, kept[x]));
        let i = choose|i: int| #[trigger] scan::is_first_hit(all, i) && all[i] == kept[x];
        assert(scan::hit_facts(all)[i] == facts[x]);
    }
    assert forall|j: int, e: int| #[trigger]
        was_read(site, c, j, e) && site.is_junk(
            c.found[j].1,
            (site.list)(c.found[j].1)[e],
        ) implies facts.contains(site.hit(c.found[j].1, e)) by {
        let hit = site.hit(c.found[j].1, e);
        let x = choose|x: int| 0 <= x < all.len() && scan::hit_facts(all)[x] == hit;
        assert(all[x].path@ == hit.path);
        assert(scan::has_path(kept, paths::components(all[x].path@)));
        let k = choose|k: int|
            0 <= k < kept.len() && paths::components(#[trigger] kept[k].path@)
                == paths::components(all[x].path@);
        assert(is_junk_in(site, c, facts[k]));
        let (i, f) = choose|i: int, f: int| #[trigger]
            was_read(site, c, i, f) && site.is_junk(
                c.found[i].1,
                (site.list)(c.found[i].1)[f],
            ) && facts[k] == site.hit(c.found[i].1, f);
        lemma_same_place(site, c, i, f, j, e);
        assert(facts[k] == hit);
    }
}

/// The hits of a scan are the junk directories in the directories that can be reached from the
/// root without entering junk: all of them, each once, in the order of paths.
pub proof fn scan_finds_all_junk_once(
    site: Site,
    root: Seq<u8>,
    scan: Scan,
    result: FullScanResult,
)
    requires
        is_finished(site, root, scan, result),
    ensures
        forall|k: int|
            0 <= k < result.hits@.len() ==> is_known_junk(
                site,
                root,
                (#[trigger] result.hits@[k])@,
            ),
        forall|dir: Seq<u8>, e: int| #[trigger]
            site.has_entry(root, dir, e) && site.is_junk(dir, (site.list)(dir)[e])
                ==> scan::hit_facts(result.hits@).contains(site.hit(dir, e)),
        forall|k: int, m: int|
            0 <= k < m < result.hits@.len() ==> paths::path_before(
                paths::components(#[trigger] result.hits@[k].path@),
                paths::components(#[trigger] result.hits@[m].path@),
            ),
{
    let c = scan.last().crawl;
    lemma_read_is_reached(site, root, scan);
    lemma_hits(site, root, scan, result);
    assert forall|k: int| 0 <= k < result.hits@.len() implies is_known_junk(
        site,
        root,
        (#[trigger] result.hits@[k])@,
    ) by {
        let hit = scan::hit_facts(result.hits@)[k];
        assert(is_junk_in(site, c, hit));
        let (j, e) = choose|j: int, e: int| #[trigger]
            was_read(site, c, j, e) && site.is_junk(
                c.found[j].1,
                (site.list)(c.found[j].1)[e],
            ) && hit == site.hit(c.found[j].1, e);
        assert(site.has_entry(root, c.found[j].1, e));
    }
    assert forall|dir: Seq<u8>, e: int| #[trigger]
        site.has_entry(root, dir, e) && site.is_junk(
            dir,
            (site.list)(dir)[e],
        ) implies scan::hit_facts(result.hits@).contains(site.hit(dir, e)) by {
        let j = choose|j: int| #[trigger] was_read(site, c, j, e) && c.found[j].1 == dir;
        assert(was_read(site, c, j, e));
    }
}

// ── Below junk ──────────────────────────────────────────────────────────

/// No entry of a directory that was found lies below junk.
proof fn lemma_not_below_junk(
    site: Site,
    root: Seq<u8>,
    scan: Scan,
    j: int,
    e: int,
    k: int,
    f: int,
)
    requires
        site.disk().is_proper(),
        scan.is_scan_of(site, root),
        was_read(site, scan.last().crawl, j, e),
        was_read(site, scan.last().crawl, k, f),
        site.is_junk(
            scan.last().crawl.found[j].1,
            (site.list)(scan.last().crawl.found[j].1)[e],
        ),
    ensures
        !paths::is_ancestor(
            place(site, scan.last().crawl, j, e),
            place(site, scan.last().crawl, k, f),
        ),
{
    let c = scan.last().crawl;
    let junk = place(site, c, j, e);
    let entry = place(site, c, k, f);
    let disk = site.disk();
    if paths::is_ancestor(junk, entry) {
        lemma_scan_is_crawl(site, root, scan);
        lemma_states(site, root, scan, scan.states.len() - 1);
        lemma_place(site, c, j, e);
        lemma_place(site, c, k, f);
        let last = scan.crawls().len() - 1;
        crawl::lemma_under_root(disk, root, scan.crawls(), scan.picks(), last, j);
        let above = crawl::found_path(c, k);
        assert(junk =~= above.subrange(0, junk.len() as int)) by {
            assert forall|i: int| 0 <= i < junk.len() implies junk[i] == above[i] by {
                assert(entry.subrange(0, junk.len() as int)[i] == entry[i]);
            }
        }
        let m = crawl::lemma_way_down(disk, root, scan.crawls(), scan.picks(), k, junk);
        assert(crawl::found_path(c, m) == junk);
        crawl::lemma_under_root(disk, root, scan.crawls(), scan.picks(), last, 0);
        assert(m > 0);
        let p = crawl::lemma_source(disk, root, scan.crawls(), scan.picks(), m);
        let g = crawl::lemma_child(disk, c.found[p], c.found[m]);
        lemma_same_place(site, c, p, g, j, e);
        assert((disk.skip)(c.found[p].1, (disk.list)(c.found[p].1)[g]));
    }
}

/// Nothing below a junk directory is listed, and no junk is found below junk.
pub proof fn nothing_below_junk_is_listed(
    site: Site,
    root: Seq<u8>,
    scan: Scan,
    result: FullScanResult,
)
    requires
        is_finished(site, root, scan, result),
    ensures
        forall|k: int, a: int|
            0 <= k < result.hits@.len() && 0 <= a < result.tree@.len() ==> !paths::is_ancestor(
                paths::components(#[trigger] result.hits@[k].path@),
                #[trigger] tree::path_of(result.tree@, a),
            ),
        forall|k: int, m: int|
            0 <= k < result.hits@.len() && 0 <= m < result.hits@.len() ==> !paths::is_ancestor(
                paths::components(#[trigger] result.hits@[k].path@),
                paths::components(#[trigger] result.hits@[m].path@),
            ),
{
    let c = scan.last().crawl;
    let facts = scan::hit_facts(result.hits@);
    lemma_tree(site, root, scan, result);
    lemma_hits(site, root, scan, result);
    assert forall|k: int, a: int|
        0 <= k < result.hits@.len() && 0 <= a < result.tree@.len() implies !paths::is_ancestor(
        paths::components(#[trigger] result.hits@[k].path@),
        #[trigger] tree::path_of(result.tree@, a),
    ) by {
        assert(is_junk_in(site, c, facts[k]));
        let (j, e) = choose|j: int, e: int| #[trigger]
            was_read(site, c, j, e) && site.is_junk(
                c.found[j].1,
                (site.list)(c.found[j].1)[e],
            ) && facts[k] == site.hit(c.found[j].1, e);
        assert(is_placed(site, root, c, result.tree@[a]@));
        let (i, f) = choose|i: int, f: int| #[trigger]
            was_read(site, c, i, f) && result.tree@[a]@ == site.nodes(c.found[i].1, root)[f];
        assert(result.tree@[a]@.path == result.tree@[a].path@);
        lemma_not_below_junk(site, root, scan, j, e, i, f);
    }
    assert forall|k: int, m: int|
        0 <= k < result.hits@.len() && 0 <= m < result.hits@.len() implies !paths::is_ancestor(
        paths::components(#[trigger] result.hits@[k].path@),
        paths::components(#[trigger] result.hits@[m].path@),
    ) by {
        assert(is_junk_in(site, c, facts[k]));
        assert(is_junk_in(site, c, facts[m]));
        let (j, e) = choose|j: int, e: int| #[trigger]
            was_read(site, c, j, e) && site.is_junk(
                c.found[j].1,
                (site.list)(c.found[j].1)[e],
            ) && facts[k] == site.hit(c.found[j].1, e);
        let (i, f) = choose|i: int, f: int| #[trigger]
            was_read(site, c, i, f) && site.is_junk(
                c.found[i].1,
                (site.list)(c.found[i].1)[f],
            ) && facts[m] == site.hit(c.found[i].1, f);
        lemma_not_below_junk(site, root, scan, j, e, i, f);
    }
}

// ── The shape of the tree ───────────────────────────────────────────────

/// Every entry of the tree lies under the root.
pub proof fn entries_lie_under_the_root(
    site: Site,
    root: Seq<u8>,
    scan: Scan,
    result: FullScanResult,
    a: int,
)
    requires
        is_finished(site, root, scan, result),
        0 <= a < result.tree@.len(),
    ensures
        paths::components(root).is_prefix_of(tree::path_of(result.tree@, a)),
        tree::path_of(result.tree@, a).len() > paths::components(root).len(),
{
    let c = scan.last().crawl;
    lemma_tree(site, root, scan, result);
    lemma_scan_is_crawl(site, root, scan);
    assert(is_placed(site, root, c, result.tree@[a]@));
    let (j, e) = choose|j: int, e: int| #[trigger]
        was_read(site, c, j, e) && result.tree@[a]@ == site.nodes(c.found[j].1, root)[e];
    assert(result.tree@[a]@.path == result.tree@[a].path@);
    crawl::lemma_under_root(
        site.disk(),
        root,
        scan.crawls(),
        scan.picks(),
        scan.crawls().len() - 1,
        j,
    );
    lemma_place(site, c, j, e);
    let name = Component::Normal((site.list)(c.found[j].1)[e].name);
    crawl::lemma_prefix_push(paths::components(root), crawl::found_path(c, j), name);
}

/// Where the tree is not full and links are not followed, every entry that is not directly in
/// the root stands in the tree together with the directory that holds it.
pub proof fn entries_hang_below_their_directories(
    site: Site,
    root: Seq<u8>,
    scan: Scan,
    result: FullScanResult,
    a: int,
)
    requires
        is_finished(site, root, scan, result),
        !scan.is_full(),
        !site.follow_symlinks,
        0 <= a < result.tree@.len(),
        tree::path_of(result.tree@, a).len() > paths::components(root).len() + 1,
    ensures
        exists|b: int| #[trigger] tree::holds(result.tree@, b, a),
{
    let c = scan.last().crawl;
    let disk = site.disk();
    lemma_tree(site, root, scan, result);
    lemma_scan_is_crawl(site, root, scan);
    assert(is_placed(site, root, c, result.tree@[a]@));
    let (j, e) = choose|j: int, e: int| #[trigger]
        was_read(site, c, j, e) && result.tree@[a]@ == site.nodes(c.found[j].1, root)[e];
    assert(result.tree@[a]@.path == result.tree@[a].path@);
    lemma_place(site, c, j, e);
    crawl::lemma_under_root(
        disk,
        root,
        scan.crawls(),
        scan.picks(),
        scan.crawls().len() - 1,
        0,
    );
    assert(j > 0);
    let p = crawl::lemma_source(disk, root, scan.crawls(), scan.picks(), j);
    let g = crawl::lemma_child(disk, c.found[p], c.found[j]);
    assert(c.read.contains(p));
    assert(was_read(site, c, p, g));
    let dir = site.nodes(c.found[p].1, root)[g];
    let b = choose|b: int| 0 <= b < result.tree@.len() && scan::nodes(result.tree@)[b] == dir;
    assert(result.tree@[b]@ == dir);
    assert(tree::path_of(result.tree@, b) == crawl::found_path(c, j));
    let above = crawl::found_path(c, j);
    let name = Component::Normal((site.list)(c.found[j].1)[e].name);
    assert(above.push(name).drop_last() =~= above);
    assert(tree::holds(result.tree@, b, a));
}

// ── Schedules ───────────────────────────────────────────────────────────

/// Lists in strict order that hold the same items are the same.
proof fn lemma_lists_agree<T>(a: Seq<T>, b: Seq<T>, key: spec_fn(T) -> Seq<Component>)
    requires
        forall|i: int, j: int|
            0 <= i < j < a.len() ==> paths::path_before(key(#[trigger] a[i]), key(#[trigger] a[j])),
        forall|i: int, j: int|
            0 <= i < j < b.len() ==> paths::path_before(key(#[trigger] b[i]), key(#[trigger] b[j])),
        forall|x: T| #[trigger] a.contains(x) <==> b.contains(x),
    ensures
        a == b,
    decreases a.len(),
{
    if a.len() == 0 {
        if b.len() > 0 {
            assert(b.contains(b[0]));
            assert(a.contains(b[0]));
        }
        assert(a =~= b);
    } else {
        let x = a.last();
        assert(a.contains(x));
        assert(b.contains(x));
        let i = choose|i: int| 0 <= i < b.len() && b[i] == x;
        let y = b.last();
        assert(b.contains(y));
        assert(a.contains(y));
        let j = choose|j: int| 0 <= j < a.len() && a[j] == y;
        paths::path_order_is_total(key(x), key(y));
        assert(x == y) by {
            if i < b.len() - 1 {
                assert(paths::path_before(key(b[i]), key(b[b.len() - 1])));
                if j < a.len() - 1 {
                    assert(paths::path_before(key(a[j]), key(a[a.len() - 1])));
                }
            }
        }
        let front = a.drop_last();
        let head = b.drop_last();
        assert forall|z: T| #[trigger] front.contains(z) implies head.contains(z) by {
            let k = choose|k: int| 0 <= k < front.len() && front[k] == z;
            assert(a[k] == z);
            assert(a.contains(z));
            assert(b.contains(z));
            let m = choose|m: int| 0 <= m < b.len() && b[m] == z;
            if m == b.len() - 1 {
                assert(paths::path_before(key(a[k]), key(a[a.len() - 1])));
            }
            assert(head[m] == z);
        }
        assert forall|z: T| #[trigger] head.contains(z) implies front.contains(z) by {
            let k = choose|k: int| 0 <= k < head.len() && head[k] == z;
            assert(b[k] == z);
            assert(b.contains(z));
            assert(a.contains(z));
            let m = choose|m: int| 0 <= m < a.len() && a[m] == z;
            if m == a.len() - 1 {
                assert(paths::path_before(key(b[k]), key(b[b.len() - 1])));
            }
            assert(front[m] == z);
        }
        lemma_lists_agree(front, head, key);
        assert(a =~= front.push(x));
        assert(b =~= head.push(y));
    }
}

/// The result of a scan does not depend on how many workers there are, nor on which of them
/// reads which directory when: the hits are the same, and where the trees are not full, so is
/// the tree.
pub proof fn schedules_do_not_matter(
    site: Site,
    root: Seq<u8>,
    one: Scan,
    other: Scan,
    result: FullScanResult,
    again: FullScanResult,
)
    requires
        is_finished(site, root, one, result),
        is_finished(site, root, other, again),
    ensures
        scan::hit_facts(result.hits@) == scan::hit_facts(again.hits@),
        !one.is_full() && !other.is_full() ==> scan::nodes(result.tree@) == scan::nodes(
            again.tree@,
        ),
{
    let by_hit = |h: HitFacts| paths::components(h.path);
    let by_node = |n: Node| paths::components(n.path);
    let hits = scan::hit_facts(result.hits@);
    let more = scan::hit_facts(again.hits@);
    scan_finds_all_junk_once(site, root, one, result);
    scan_finds_all_junk_once(site, root, other, again);
    assert forall|h: HitFacts| #[trigger] hits.contains(h) <==> more.contains(h) by {
        if hits.contains(h) {
            let k = choose|k: int| 0 <= k < hits.len() && hits[k] == h;
            assert(is_known_junk(site, root, result.hits@[k]@));
        }
        if more.contains(h) {
            let k = choose|k: int| 0 <= k < more.len() && more[k] == h;
            assert(is_known_junk(site, root, again.hits@[k]@));
        }
    }
    assert forall|i: int, j: int| 0 <= i < j < hits.len() implies paths::path_before(
        by_hit(#[trigger] hits[i]),
        by_hit(#[trigger] hits[j]),
    ) by {
        assert(hits[i].path == result.hits@[i].path@);
        assert(hits[j].path == result.hits@[j].path@);
    }
    assert forall|i: int, j: int| 0 <= i < j < more.len() implies paths::path_before(
        by_hit(#[trigger] more[i]),
        by_hit(#[trigger] more[j]),
    ) by {
        assert(more[i].path == again.hits@[i].path@);
        assert(more[j].path == again.hits@[j].path@);
    }
    lemma_lists_agree(hits, more, by_hit);
    if !one.is_full() && !other.is_full() {
        let nodes = scan::nodes(result.tree@);
        let others = scan::nodes(again.tree@);
        scan_lists_every_entry_once(site, root, one, result);
        scan_lists_every_entry_once(site, root, other, again);
        assert forall|n: Node| #[trigger] nodes.contains(n) <==> others.contains(n) by {
            if nodes.contains(n) {
                let k = choose|k: int| 0 <= k < nodes.len() && nodes[k] == n;
                assert(is_listed(site, root, result.tree@[k]@));
            }
            if others.contains(n) {
                let k = choose|k: int| 0 <= k < others.len() && others[k] == n;
                assert(is_listed(site, root, again.tree@[k]@));
            }
        }
        assert forall|i: int, j: int| 0 <= i < j < nodes.len() implies paths::path_before(
            by_node(#[trigger] nodes[i]),
            by_node(#[trigger] nodes[j]),
        ) by {
            assert(by_node(nodes[i]) == tree::path_of(result.tree@, i));
            assert(by_node(nodes[j]) == tree::path_of(result.tree@, j));
        }
        assert forall|i: int, j: int| 0 <= i < j < others.len() implies paths::path_before(
            by_node(#[trigger] others[i]),
            by_node(#[trigger] others[j]),
        ) by {
            assert(by_node(others[i]) == tree::path_of(again.tree@, i));
            assert(by_node(others[j]) == tree::path_of(again.tree@, j));
        }
        lemma_lists_agree(nodes, others, by_node);
    }
}

} // verus!
