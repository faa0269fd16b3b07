//! Counts of what a walk has met.
//!
//! Every worker counts for itself and adds its counts to those of all once, when it ends.

use vstd::prelude::*;

use crate::platform::{EntryFacts, RawEntry};
use crate::platform;
use crate::sums;
use crate::walker;
use crate::walker::EntryKind;

verus! {

/// What one worker, or all of them, have met.
#[derive(Debug, Clone, Copy, PartialEq, Eq, Structural)]
pub struct Counters {
    pub entries: u64,
    pub dirs: u64,
    pub files: u64,
    pub symlinks: u64,
    pub total_size: u64,
}

/// Counts as numbers.
pub struct Counts {
    pub entries: nat,
    pub dirs: nat,
    pub files: nat,
    pub symlinks: nat,
    pub total_size: nat,
}

impl View for Counters {
    type V = Counts;

    open spec fn view(&self) -> Counts {
        Counts {
            entries: self.entries as nat,
            dirs: self.dirs as nat,
            files: self.files as nat,
            symlinks: self.symlinks as nat,
            total_size: self.total_size as nat,
        }
    }
}

/// One where an entry is of this kind.
pub open spec fn is_kind(kind: EntryKind) -> spec_fn(EntryFacts) -> nat {
    |e: EntryFacts|
        if e.kind == kind {
            1
        } else {
            0
        }
}

/// The counts of the entries `seen`.
pub open spec fn tally(seen: Seq<EntryFacts>) -> Counts {
    Counts {
        entries: seen.len(),
        dirs: sums::total(seen, is_kind(EntryKind::Dir)),
        files: sums::total(seen, is_kind(EntryKind::File)),
        symlinks: sums::total(seen, is_kind(EntryKind::Symlink)),
        total_size: sums::total(seen, walker::told_size()),
    }
}

/// The counts of one entry.
pub open spec fn count_of(kind: EntryKind, size: Option<u64>) -> Counts {
    Counts {
        entries: 1,
        dirs: if kind is Dir { 1 } else { 0 },
        files: if kind is File { 1 } else { 0 },
        symlinks: if kind is Symlink { 1 } else { 0 },
        total_size: match size {
            Some(bytes) => bytes as nat,
            None => 0,
        },
    }
}

pub open spec fn sum_of(a: Counts, b: Counts) -> Counts {
    Counts {
        entries: a.entries + b.entries,
        dirs: a.dirs + b.dirs,
        files: a.files + b.files,
        symlinks: a.symlinks + b.symlinks,
        total_size: a.total_size + b.total_size,
    }
}

/// All counts fit their counters.
pub open spec fn fits(c: Counts) -> bool {
    &&& c.entries <= u64::MAX
    &&& c.dirs <= u64::MAX
    &&& c.files <= u64::MAX
    &&& c.symlinks <= u64::MAX
    &&& c.total_size <= u64::MAX
}

/// The sum of two counters, modulo 2^64.
pub open spec fn wrapped_sum(a: u64, b: u64) -> u64 {
    ((a + b) % 0x1_0000_0000_0000_0000) as u64
}

/// The counters after those of a worker were added.
pub open spec fn merged(all: Counters, worker: Counters) -> Counters {
    Counters {
        entries: wrapped_sum(all.entries, worker.entries),
        dirs: wrapped_sum(all.dirs, worker.dirs),
        files: wrapped_sum(all.files, worker.files),
        symlinks: wrapped_sum(all.symlinks, worker.symlinks),
        total_size: wrapped_sum(all.total_size, worker.total_size),
    }
}

impl Counters {
    pub fn new() -> (counters: Self)
        ensures
            counters@ == tally(seq![]),
    {
        Counters { entries: 0, dirs: 0, files: 0, symlinks: 0, total_size: 0 }
    }

    /// Counts one entry.
    pub fn record(&mut self, kind: EntryKind, size: Option<u64>)
        requires
            old(self).entries < u64::MAX,
            kind is Dir ==> old(self).dirs < u64::MAX,
            kind is File ==> old(self).files < u64::MAX,
            kind is Symlink ==> old(self).symlinks < u64::MAX,
            size matches Some(bytes) ==> old(self).total_size + bytes <= u64::MAX,
        ensures
            final(self)@ == sum_of(old(self)@, count_of(kind, size)),
    {
        self.entries = self.entries + 1;
        match kind {
            EntryKind::Dir => {
                self.dirs = self.dirs + 1;
            },
            EntryKind::File => {
                self.files = self.files + 1;
            },
            EntryKind::Symlink => {
                self.symlinks = self.symlinks + 1;
            },
            EntryKind::Other => {},
        }
        if let Some(bytes) = size {
            self.total_size = self.total_size + bytes;
        }
    }

    /// Whether the entries of a listing can be counted.
    pub fn can_record(&self, listing: &[RawEntry]) -> (can: bool)
        ensures
            can == fits(sum_of(self@, tally(platform::listing_facts(listing@)))),
    {
        let ghost facts = platform::listing_facts(listing@);
        let mut so_far = *self;
        let mut i: usize = 0;
        while i < listing.len()
            invariant
                i <= listing@.len(),
                facts == platform::listing_facts(listing@),
                so_far@ == sum_of(self@, tally(facts.take(i as int))),
            decreases listing@.len() - i,
        {
            let entry = &listing[i];
            proof {
                assert(facts[i as int] == entry@);
                lemma_tally_step(facts, i as int);
            }
            let bytes: u64 = match entry.size {
                Some(bytes) => bytes,
                None => 0,
            };
            let full: bool = so_far.entries == u64::MAX || match entry.kind {
                EntryKind::Dir => so_far.dirs == u64::MAX,
                EntryKind::File => so_far.files == u64::MAX,
                EntryKind::Symlink => so_far.symlinks == u64::MAX,
                EntryKind::Other => false,
            };
            if full || bytes > u64::MAX - so_far.total_size {
                return false;
            }
            so_far.record(entry.kind, entry.size);
            i = i + 1;
        }
        assert(facts.take(i as int) =~= facts);
        true
    }

    /// Counts the entries of a listing.
    pub fn record_listing(&mut self, listing: &[RawEntry])
        requires
            fits(sum_of(old(self)@, tally(platform::listing_facts(listing@)))),
        ensures
            final(self)@ == sum_of(old(self)@, tally(platform::listing_facts(listing@))),
    {
        let ghost facts = platform::listing_facts(listing@);
        let mut i: usize = 0;
        while i < listing.len()
            invariant
                i <= listing@.len(),
                facts == platform::listing_facts(listing@),
                fits(sum_of(old(self)@, tally(facts))),
                self@ == sum_of(old(self)@, tally(facts.take(i as int))),
            decreases listing@.len() - i,
        {
            proof {
                assert(facts[i as int] == listing@[i as int]@);
                lemma_tally_step(facts, i as int);
            }
            self.record(listing[i].kind, listing[i].size);
            i = i + 1;
        }
        assert(facts.take(i as int) =~= facts);
    }

    /// Adds the counts of a worker that has ended.
    pub fn merge(&mut self, worker: &Counters)
        ensures
            *final(self) == merged(*old(self), *worker),
            fits(sum_of(old(self)@, worker@)) ==> final(self)@ == sum_of(old(self)@, worker@),
    {
        self.entries = self.entries.wrapping_add(worker.entries);
        self.dirs = self.dirs.wrapping_add(worker.dirs);
        self.files = self.files.wrapping_add(worker.files);
        self.symlinks = self.symlinks.wrapping_add(worker.symlinks);
        self.total_size = self.total_size.wrapping_add(worker.total_size);
    }
}

/// Counting one entry more gives the counts of all entries seen.
pub proof fn counting_one_more(seen: Seq<EntryFacts>, e: EntryFacts)
    ensures
        tally(seen.push(e)) == sum_of(tally(seen), count_of(e.kind, e.size)),
{
    sums::lemma_total_push(seen, e, is_kind(EntryKind::Dir));
    sums::lemma_total_push(seen, e, is_kind(EntryKind::File));
    sums::lemma_total_push(seen, e, is_kind(EntryKind::Symlink));
    sums::lemma_total_push(seen, e, walker::told_size());
}

/// Counting entry `k` after those before it, and what that leaves to count.
proof fn lemma_tally_step(seen: Seq<EntryFacts>, k: int)
    requires
        0 <= k < seen.len(),
    ensures
        tally(seen.take(k + 1)) == sum_of(
            tally(seen.take(k)),
            count_of(seen[k].kind, seen[k].size),
        ),
        tally(seen.take(k + 1)).entries <= tally(seen).entries,
        tally(seen.take(k + 1)).dirs <= tally(seen).dirs,
        tally(seen.take(k + 1)).files <= tally(seen).files,
        tally(seen.take(k + 1)).symlinks <= tally(seen).symlinks,
        tally(seen.take(k + 1)).total_size <= tally(seen).total_size,
{
    assert(seen.take(k + 1) =~= seen.take(k).push(seen[k]));
    counting_one_more(seen.take(k), seen[k]);
    sums::lemma_total_step(seen, k, is_kind(EntryKind::Dir));
    sums::lemma_total_step(seen, k, is_kind(EntryKind::File));
    sums::lemma_total_step(seen, k, is_kind(EntryKind::Symlink));
    sums::lemma_total_step(seen, k, walker::told_size());
}

/// Counting apart and adding up gives what counting all together gives, however the entries
/// are shared out.
pub proof fn counts_add_up(a: Seq<EntryFacts>, b: Seq<EntryFacts>)
    ensures
        tally(a + b) == sum_of(tally(a), tally(b)),
{
    sums::lemma_total_concat(a, b, is_kind(EntryKind::Dir));
    sums::lemma_total_concat(a, b, is_kind(EntryKind::File));
    sums::lemma_total_concat(a, b, is_kind(EntryKind::Symlink));
    sums::lemma_total_concat(a, b, walker::told_size());
}

/// Every directory, file and symbolic link is an entry, and counted as one thing only.
pub proof fn kinds_are_apart(seen: Seq<EntryFacts>)
    ensures
        tally(seen).entries == tally(seen).dirs + tally(seen).files + tally(seen).symlinks
            + sums::total(seen, is_kind(EntryKind::Other)),
    decreases seen.len(),
{
    if seen.len() > 0 {
        kinds_are_apart(seen.drop_last());
    }
}

/// The counters of all after every worker has added its own to `start`.
pub open spec fn merged_all(start: Counters, workers: Seq<Counters>) -> Counters
    decreases workers.len(),
{
    if workers.len() == 0 {
        start
    } else {
        merged(merged_all(start, workers.drop_last()), workers.last())
    }
}

/// What the workers have counted together.
pub open spec fn sum_of_all(workers: Seq<Counters>) -> Counts
    decreases workers.len(),
{
    if workers.len() == 0 {
        tally(seq![])
    } else {
        sum_of(sum_of_all(workers.drop_last()), workers.last()@)
    }
}

/// Counts modulo 2^64.
pub open spec fn wrapped(c: Counts) -> Counts {
    Counts {
        entries: c.entries % 0x1_0000_0000_0000_0000,
        dirs: c.dirs % 0x1_0000_0000_0000_0000,
        files: c.files % 0x1_0000_0000_0000_0000,
        symlinks: c.symlinks % 0x1_0000_0000_0000_0000,
        total_size: c.total_size % 0x1_0000_0000_0000_0000,
    }
}

proof fn lemma_wraps(before: u64, x: nat, y: u64)
    requires
        before == x % 0x1_0000_0000_0000_0000,
    ensures
        wrapped_sum(before, y) == (x + y) % 0x1_0000_0000_0000_0000,
{
    vstd::arithmetic::div_mod::lemma_add_mod_noop(x as int, y as int, 0x1_0000_0000_0000_0000);
    vstd::arithmetic::div_mod::lemma_small_mod(y as nat, 0x1_0000_0000_0000_0000);
}

/// The merged counters are what the workers have counted together, modulo 2^64 and so exactly
/// where it fits.
pub proof fn merged_counters_add_up(start: Counters, workers: Seq<Counters>)
    requires
        start@ == tally(seq![]),
    ensures
        merged_all(start, workers)@ == wrapped(sum_of_all(workers)),
        fits(sum_of_all(workers)) ==> merged_all(start, workers)@ == sum_of_all(workers),
    decreases workers.len(),
{
    if workers.len() > 0 {
        let before = merged_all(start, workers.drop_last());
        let counted = sum_of_all(workers.drop_last());
        let last = workers.last();
        merged_counters_add_up(start, workers.drop_last());
        lemma_wraps(before.entries, counted.entries, last.entries);
        lemma_wraps(before.dirs, counted.dirs, last.dirs);
        lemma_wraps(before.files, counted.files, last.files);
        lemma_wraps(before.symlinks, counted.symlinks, last.symlinks);
        lemma_wraps(before.total_size, counted.total_size, last.total_size);
    }
}

/// Where one worker counts on, the sum grows by what it has counted.
pub(crate) proof fn lemma_sum_grows(
    before: Seq<Counters>,
    after: Seq<Counters>,
    w: int,
    more: Counts,
)
    requires
        0 <= w < before.len() == after.len(),
        forall|v: int| 0 <= v < before.len() && v != w ==> #[trigger] after[v] == before[v],
        after[w]@ == sum_of(before[w]@, more),
    ensures
        sum_of_all(after) == sum_of(sum_of_all(before), more),
    decreases before.len(),
{
    if w == before.len() - 1 {
        assert(after.drop_last() =~= before.drop_last());
    } else {
        lemma_sum_grows(before.drop_last(), after.drop_last(), w, more);
        assert(after.last() == before.last()) by {
            assert(after[before.len() - 1] == before[before.len() - 1]);
        }
    }
}

} // verus!
