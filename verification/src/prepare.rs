//! From the result of a scan to what the interface shows.

use vstd::prelude::*;

use crate::accumulate::{accumulate_tree, can_accumulate};
use crate::junk::JunkHit;
use crate::junk_view::{sort_hits, HitsBySize};
use crate::scan::{apply_junk_sizes_to_tree, compute_sizes, FullScanResult, Node, TreeEntry};
use crate::accumulate;
use crate::order;
use crate::scan;
use crate::tree;

verus! {

/// `hits` are the hits that a scan has found, each with the size that was found for it, the
/// biggest first.
pub open spec fn is_ready(found: Seq<JunkHit>, sizes: Seq<u64>, hits: Seq<JunkHit>) -> bool {
    exists|sized: Seq<JunkHit>|
        {
            &&& scan::hit_facts(sized) == scan::with_sizes(found, sizes)
            &&& #[trigger] order::is_sorted_from::<JunkHit, HitsBySize>(sized, hits)
        }
}

/// The tree with the sizes of the hits put in.
pub open spec fn filled_in(hits: Seq<JunkHit>, tree: Seq<TreeEntry>) -> Seq<Node> {
    Seq::new(tree.len(), |i: int| scan::with_found_size(hits, tree[i]@))
}

/// Puts the sizes of the junk directories in, sorts them by size, and adds up the sizes of all
/// directories. `None` where a size would not fit its field.
pub fn prepare(found: FullScanResult, sizes: &[u64]) -> (prepared: Option<FullScanResult>)
    requires
        found.hits@.len() == sizes@.len(),
    ensures
        match prepared {
            Some(ready) => {
                let tree = filled_in(ready.hits@, found.tree@);
                &&& is_ready(found.hits@, sizes@, ready.hits@)
                &&& accumulate::sizes_fit(tree)
                &&& scan::nodes(ready.tree@) == accumulate::accumulated(tree)
                &&& tree::sorted_by_path(found.tree@) ==> tree::sorted_by_path(ready.tree@)
            },
            None => exists|hits: Seq<JunkHit>| #[trigger]
                is_ready(found.hits@, sizes@, hits) && !accumulate::sizes_fit(
                    filled_in(hits, found.tree@),
                ),
        },
{
    let ghost given = found.hits@;
    let ghost entries = found.tree@;
    let mut hits = found.hits;
    let mut tree = found.tree;
    compute_sizes(hits.as_mut_slice(), sizes);
    let ghost sized = hits@;
    let hits = sort_hits(hits);
    assert(order::is_sorted_from::<JunkHit, HitsBySize>(sized, hits@));
    assert(is_ready(given, sizes@, hits@));
    apply_junk_sizes_to_tree(hits.as_slice(), tree.as_mut_slice());
    assert(scan::nodes(tree@) == filled_in(hits@, entries));
    if !can_accumulate(tree.as_slice()) {
        return None;
    }
    accumulate_tree(tree.as_mut_slice());
    proof {
        assert(tree@.len() == scan::nodes(tree@).len() == entries.len());
        assert forall|i: int| 0 <= i < entries.len() implies #[trigger] tree::path_of(tree@, i)
            == tree::path_of(entries, i) by {
            assert(scan::nodes(tree@)[i] == tree@[i]@);
            assert(scan::nodes(tree@)[i].path == filled_in(hits@, entries)[i].path);
            assert(filled_in(hits@, entries)[i].path == entries[i]@.path);
        }
    }
    Some(FullScanResult { hits, tree })
}

} // verus!
