//! Laws of counting: every entry counts once, for what it is, with every byte of its size.

use vstd::prelude::*;

use crate::counters::{Counters, Counts};
use crate::platform::{EntryFacts, RawEntry};
use crate::walker::EntryKind;
use crate::counters;
use crate::platform;
use crate::sums;
use crate::walker;

verus! {

/// A single entry counts as one entry, as one thing of its kind, and with all the bytes that are
/// told of it.
pub proof fn one_entry_counts_for_what_it_is(e: EntryFacts)
    ensures
        ({
            let counts = counters::tally(seq![e]);
            let bytes = sums::total(seq![e], walker::told_size());
            &&& counts.entries == 1
            &&& (counts.dirs == 1 <==> e.kind == EntryKind::Dir) && counts.dirs <= 1
            &&& (counts.files == 1 <==> e.kind == EntryKind::File) && counts.files <= 1
            &&& (counts.symlinks == 1 <==> e.kind == EntryKind::Symlink) && counts.symlinks <= 1
            &&& counts.total_size == bytes
            &&& forall|b: u64| e.size == Some(b) ==> bytes == b
            &&& e.size is None ==> bytes == 0
        }),
{
    assert(seq![e] =~= Seq::<EntryFacts>::empty().push(e));
    counters::counting_one_more(seq![], e);
    sums::lemma_total_push(seq![], e, walker::told_size());
}

/// Nothing seen counts for nothing.
pub proof fn nothing_counts_for_nothing()
    ensures
        ({
            let counts = counters::tally(seq![]);
            &&& counts.entries == 0 && counts.dirs == 0 && counts.files == 0
            &&& counts.symlinks == 0 && counts.total_size == 0
        }),
{
}

/// A file that is larger by some bytes makes the sum larger by as many, and changes no other
/// count.
pub proof fn every_byte_counts(seen: Seq<EntryFacts>, i: int, bytes: u64, more: u64)
    requires
        0 <= i < seen.len(),
        seen[i].size == Some(bytes),
        bytes + more <= u64::MAX,
    ensures
        ({
            let larger = seen.update(
                i,
                EntryFacts { size: Some((bytes + more) as u64), ..seen[i] },
            );
            let before = counters::tally(seen);
            let after = counters::tally(larger);
            &&& after.total_size == before.total_size + more
            &&& after.entries == before.entries && after.dirs == before.dirs
            &&& after.files == before.files && after.symlinks == before.symlinks
            &&& sums::total(larger, walker::told_size()) == sums::total(seen, walker::told_size())
                + more
            &&& before.total_size >= bytes
        }),
{
    let larger = seen.update(i, EntryFacts { size: Some((bytes + more) as u64), ..seen[i] });
    assert(larger.remove(i) =~= seen.remove(i));
    sums::lemma_total_remove(seen, i, walker::told_size());
    sums::lemma_total_remove(larger, i, walker::told_size());
    sums::lemma_total_remove(seen, i, counters::is_kind(EntryKind::Dir));
    sums::lemma_total_remove(larger, i, counters::is_kind(EntryKind::Dir));
    sums::lemma_total_remove(seen, i, counters::is_kind(EntryKind::File));
    sums::lemma_total_remove(larger, i, counters::is_kind(EntryKind::File));
    sums::lemma_total_remove(seen, i, counters::is_kind(EntryKind::Symlink));
    sums::lemma_total_remove(larger, i, counters::is_kind(EntryKind::Symlink));
}

/// Counting an entry that is met adds one entry, one thing of its kind, and the bytes told of it
/// to what was counted before, whatever that was.
pub proof fn an_entry_that_is_met_is_added(before: Counts, kind: EntryKind, size: Option<u64>)
    ensures
        ({
            let after = counters::sum_of(before, counters::count_of(kind, size));
            let dirs = after.dirs - before.dirs;
            let files = after.files - before.files;
            let symlinks = after.symlinks - before.symlinks;
            &&& after.entries - before.entries == 1
            &&& dirs == 1 <==> kind == EntryKind::Dir
            &&& files == 1 <==> kind == EntryKind::File
            &&& symlinks == 1 <==> kind == EntryKind::Symlink
            &&& dirs + files + symlinks + (if kind == EntryKind::Other {
                1int
            } else {
                0
            }) == 1
            &&& 0 <= dirs && 0 <= files && 0 <= symlinks
            &&& forall|b: u64| size == Some(b) ==> after.total_size - before.total_size == b
            &&& size is None ==> after.total_size == before.total_size
        }),
{
}

/// A worker's counters are added to those of all count by count, and go around at 2^64.
pub proof fn merging_adds_count_by_count(all: Counters, worker: Counters)
    ensures
        ({
            let after = counters::merged(all, worker);
            let turn = 0x1_0000_0000_0000_0000int;
            &&& after.entries - all.entries - worker.entries == 0 || after.entries - all.entries
                - worker.entries == -turn
            &&& after.dirs - all.dirs - worker.dirs == 0 || after.dirs - all.dirs - worker.dirs
                == -turn
            &&& after.files - all.files - worker.files == 0 || after.files - all.files
                - worker.files == -turn
            &&& after.symlinks - all.symlinks - worker.symlinks == 0 || after.symlinks
                - all.symlinks - worker.symlinks == -turn
            &&& after.total_size - all.total_size - worker.total_size == 0 || after.total_size
                - all.total_size - worker.total_size == -turn
        }),
{
}

/// The counts of counters are their numbers.
pub proof fn counters_are_read_as_they_stand(c: Counters)
    ensures
        c@.entries == c.entries,
        c@.dirs == c.dirs,
        c@.files == c.files,
        c@.symlinks == c.symlinks,
        c@.total_size == c.total_size,
{
}

/// A listing says of each entry what stands in it, and of no other.
pub proof fn listings_are_read_as_they_stand(listing: Seq<RawEntry>)
    ensures
        platform::listing_facts(listing).len() == listing.len(),
        forall|i: int|
            0 <= i < listing.len() ==> (#[trigger] platform::listing_facts(listing)[i]).name
                == listing[i].name@ && platform::listing_facts(listing)[i].kind == listing[i].kind
                && platform::listing_facts(listing)[i].size == listing[i].size,
{
}

/// Totals are summed slot by slot: what a worker has counted for a root goes to that root, and
/// goes around at 2^64.
pub proof fn slots_are_added_one_by_one(totals: Seq<u64>, local: Seq<u64>, r: int)
    requires
        totals.len() == local.len(),
        0 <= r < totals.len(),
    ensures
        walker::flushed(totals, local).len() == totals.len(),
        ({
            let sum = walker::flushed(totals, local)[r] - totals[r] - local[r];
            sum == 0 || sum == -0x1_0000_0000_0000_0000int
        }),
{
}

/// Counts fit as long as none of them passes what 64 bits hold.
pub proof fn counts_fit_up_to_64_bits(c: Counts)
    ensures
        counters::fits(c) <==> c.entries < 0x1_0000_0000_0000_0000 && c.dirs
            < 0x1_0000_0000_0000_0000 && c.files < 0x1_0000_0000_0000_0000 && c.symlinks
            < 0x1_0000_0000_0000_0000 && c.total_size < 0x1_0000_0000_0000_0000,
{
}

/// The workers are added one by one: each adds its counts to those of the workers before it.
pub proof fn workers_are_added_one_by_one(start: Counters, workers: Seq<Counters>, next: Counters)
    ensures
        counters::merged_all(start, seq![]) == start,
        counters::merged_all(start, workers.push(next)) == counters::merged(
            counters::merged_all(start, workers),
            next,
        ),
        ({
            let before = counters::sum_of_all(workers);
            let after = counters::sum_of_all(workers.push(next));
            &&& after.entries == before.entries + next.entries
            &&& after.dirs == before.dirs + next.dirs
            &&& after.files == before.files + next.files
            &&& after.symlinks == before.symlinks + next.symlinks
            &&& after.total_size == before.total_size + next.total_size
        }),
        ({
            let none = counters::sum_of_all(seq![]);
            none.entries == 0 && none.dirs == 0 && none.files == 0 && none.symlinks == 0
                && none.total_size == 0
        }),
{
    assert(workers.push(next).drop_last() =~= workers);
}

} // verus!
