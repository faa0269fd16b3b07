//! Laws of numbers and sizes: numbers are written in decimal, sizes to the nearest figure that is
//! shown, and what lies on a disk adds up.

use vstd::prelude::*;

use crate::junk::{FileStat, JunkHit, StatEntry};
use crate::paths::Component;
use crate::scan::{Node, TreeEntry};
use crate::view::Weighed;
use crate::walker::EntryKind;
use crate::accumulate;
use crate::args;
use crate::junk;
use crate::paths;
use crate::sums;
use crate::text;
use crate::usage;

verus! {

// ── Numbers ─────────────────────────────────────────────────────────────

/// A number below ten is one digit; a larger one is written before its last digit.
pub proof fn numbers_are_written_digit_by_digit(n: nat, d: nat)
    requires
        d < 10,
    ensures
        text::decimal(d) == seq![(48 + d) as char],
        n > 0 ==> text::decimal(10 * n + d) == text::decimal(n).push((48 + d) as char),
{
    if n > 0 {
        assert((10 * n + d) / 10 == n);
        assert((10 * n + d) % 10 == d);
    }
}

/// Reading what was written gives the number back. No digit is wasted: a number does not start
/// with a zero, unless it is zero.
pub proof fn written_numbers_are_read_back(n: nat)
    ensures
        args::digits_value(text::decimal(n)) == n,
        args::all_digits(text::decimal(n)),
        text::decimal(n).len() > 0,
        text::decimal(n)[0] == '0' <==> n == 0,
        n > 0 ==> text::decimal(n)[0] != '0',
        n <= usize::MAX ==> args::number_in(text::decimal(n)) == Some(n as usize),
        n <= usize::MAX ==> args::number_in(seq!['+'] + text::decimal(n)) == Some(n as usize),
        n > usize::MAX ==> args::number_in(text::decimal(n)) is None,
    decreases n,
{
    let s = text::decimal(n);
    if n >= 10 {
        written_numbers_are_read_back(n / 10);
        let front = text::decimal(n / 10);
        assert(s.drop_last() =~= front);
        assert(s.last() == text::digit(n % 10));
        assert forall|i: int| 0 <= i < s.len() implies args::is_digit(#[trigger] s[i]) by {
            if i < front.len() {
                assert(args::is_digit(front[i]));
            }
        }
        assert(s[0] == front[0]);
    } else {
        assert(s.drop_last() =~= seq![]);
        assert(args::digits_value(seq![]) == 0);
    }
    assert(args::is_digit(s[0]));
    let plus = seq!['+'] + s;
    assert(plus.skip(1) =~= s);
    assert(plus[0] == '+');
}

/// Only digits write a number, behind a plus sign or not: whatever else stands in a text, and a
/// text without digits, writes none.
pub proof fn only_digits_write_numbers(s: Seq<char>, i: int)
    ensures
        s.len() == 0 ==> args::number_in(s) is None,
        s.len() == 1 && s[0] == '+' ==> args::number_in(s) is None,
        0 < i < s.len() && !('0' <= s[i] && s[i] <= '9') ==> args::number_in(s) is None,
        s.len() > 0 && s[0] != '+' && !('0' <= s[0] && s[0] <= '9') ==> args::number_in(s) is None,
{
    if 0 < i < s.len() && !('0' <= s[i] && s[i] <= '9') {
        if s[0] == '+' {
            assert(s.skip(1)[i - 1] == s[i]);
            assert(!args::is_digit(s.skip(1)[i - 1]));
        } else {
            assert(!args::is_digit(s[i]));
        }
    }
    if s.len() > 0 && s[0] != '+' && !('0' <= s[0] && s[0] <= '9') {
        assert(!args::is_digit(s[0]));
    }
}

// ── Columns ─────────────────────────────────────────────────────────────

/// A text is filled up with blanks to the width of its column and loses nothing, on the side that
/// is asked for; a text that is too long stays as it is.
pub proof fn columns_are_filled_with_blanks(v: Seq<char>, w: int, i: int)
    ensures
        text::padded_left(v, w).len() == (if w > v.len() {
            w
        } else {
            v.len() as int
        }),
        text::padded_right(v, w).len() == text::padded_left(v, w).len(),
        text::padded_left(v, w).skip(text::padded_left(v, w).len() - v.len()) == v,
        text::padded_right(v, w).take(v.len() as int) == v,
        0 <= i < text::padded_left(v, w).len() - v.len() ==> text::padded_left(v, w)[i] == ' ',
        v.len() <= i < text::padded_right(v, w).len() ==> text::padded_right(v, w)[i] == ' ',
{
    assert(text::padded_left(v, w).skip(text::padded_left(v, w).len() - v.len()) =~= v);
    assert(text::padded_right(v, w).take(v.len() as int) =~= v);
}

// ── Sizes as text ───────────────────────────────────────────────────────

/// `shown` parts of `unit` are as near to `amount` as any other number of them, but for `slack`.
pub open spec fn is_nearest(shown: nat, unit: nat, amount: nat, slack: nat) -> bool {
    &&& 2 * (shown * unit - amount) <= unit + slack
    &&& 2 * (amount - shown * unit) <= unit + slack
}

/// Sizes below a kilobyte are shown in bytes, others in the largest unit of which there is one: in
/// whole kilobytes, or in tenths of megabytes or gigabytes, to the nearest. Beyond 2^53 bytes the
/// last bits of the size do not matter.
pub proof fn sizes_are_shown_to_the_nearest(b: nat)
    requires
        b <= u64::MAX,
    ensures
        b < 1024 ==> text::size_text(b) == text::decimal(b) + " B"@,
        1024 <= b < 1048576 ==> exists|k: nat|
            is_nearest(k, 1024, b, 0) && text::size_text(b) == #[trigger]
                text::decimal(k) + " KB"@,
        1048576 <= b < 1073741824 ==> exists|t: nat|
            is_nearest(t, 1048576, 10 * b, 0) && text::size_text(b) == #[trigger]
                text::decimal(t / 10) + "."@ + text::decimal(t % 10) + " MB"@,
        1073741824 <= b < 0x20_0000_0000_0000 ==> exists|t: nat|
            is_nearest(t, 1073741824, 10 * b, 0) && text::size_text(b) == #[trigger]
                text::decimal(t / 10) + "."@ + text::decimal(t % 10) + " GB"@,
        0x20_0000_0000_0000 <= b ==> exists|t: nat|
            is_nearest(t, 1073741824, 10 * b, 20480) && text::size_text(b) == #[trigger]
                text::decimal(t / 10) + "."@ + text::decimal(t % 10) + " GB"@,
{
    let v = text::significant(b);
    lemma_significant(b);
    if 1024 <= b < 1048576 {
        let k = text::rounded(v, 1024);
        assert(is_nearest(k, 1024, b, 0));
        assert(text::size_text(b) == text::decimal(k) + " KB"@);
    }
    if 1048576 <= b < 1073741824 {
        let t = text::rounded(10 * v, 1048576);
        assert(is_nearest(t, 1048576, 10 * b, 0));
        assert(text::size_text(b) == text::decimal(t / 10) + "."@ + text::decimal(t % 10)
            + " MB"@);
    }
    if 1073741824 <= b {
        let t = text::rounded(10 * v, 1073741824);
        assert(is_nearest(t, 1073741824, 10 * v, 0));
        assert(text::size_text(b) == text::decimal(t / 10) + "."@ + text::decimal(t % 10)
            + " GB"@);
        assert(is_nearest(t, 1073741824, 10 * b, 20480));
    }
}

proof fn lemma_step(b: nat)
    requires
        b <= u64::MAX,
    ensures
        ({
            let u = text::step_for(b, 1);
            &&& u == 1 || u == 2 || u == 4 || u == 8 || u == 16 || u == 32 || u == 64 || u == 128
                || u == 256 || u == 512 || u == 1024 || u == 2048
            &&& b < 0x20_0000_0000_0000 ==> u == 1
        }),
{
    reveal_with_fuel(text::step_for, 13);
}

proof fn lemma_significant(b: nat)
    requires
        b <= u64::MAX,
    ensures
        -1024 <= text::significant(b) - b <= 1024,
        b < 0x20_0000_0000_0000 ==> text::significant(b) == b,
{
    lemma_step(b);
    let u = text::step_for(b, 1);
    let q = b / u;
    let r = b % u;
    vstd::arithmetic::div_mod::lemma_fundamental_div_mod(b as int, u as int);
    assert(u * q == q * u) by (nonlinear_arith);
    assert((q + 1) * u == q * u + u) by (nonlinear_arith);
    assert(0 <= r < u);
    if u == 1 {
        assert(text::rounded(b, 1) == b);
        assert(b * 1 == b);
    }
}

// ── Sizes on disk ───────────────────────────────────────────────────────

/// A file takes 512 bytes for each of its blocks, however long it is; where the blocks are not
/// told, it takes its length. Nothing else in a listing takes anything.
pub proof fn files_take_their_blocks(name: Vec<u8>, stat: FileStat, blocks: u64)
    ensures
        ({
            let e = StatEntry { name, stat: Some(stat) };
            let unknown = StatEntry { name, stat: None };
            &&& stat.is_file && stat.blocks == Some(blocks) ==> junk::listing_usage(seq![e])
                == 512 * blocks
            &&& stat.is_file && stat.blocks is None ==> junk::listing_usage(seq![e]) == stat.len
            &&& !stat.is_file ==> junk::listing_usage(seq![e]) == 0
            &&& junk::listing_usage(seq![unknown]) == 0
        }),
{
    let e = StatEntry { name, stat: Some(stat) };
    let unknown = StatEntry { name, stat: None };
    assert(seq![e] =~= Seq::<StatEntry>::empty().push(e));
    assert(seq![unknown] =~= Seq::<StatEntry>::empty().push(unknown));
    sums::lemma_total_push(seq![], e, junk::entry_usage());
    sums::lemma_total_push(seq![], unknown, junk::entry_usage());
}

/// What a listing takes adds up, however it is divided.
pub proof fn listings_add_up(a: Seq<StatEntry>, b: Seq<StatEntry>)
    ensures
        junk::listing_usage(a + b) == junk::listing_usage(a) + junk::listing_usage(b),
        junk::listing_usage(seq![]) == 0,
{
    sums::lemma_total_concat(a, b, junk::entry_usage());
}

/// Every directory of a listing is to be listed in turn, under its path, in order: all that the
/// file system calls a directory and not a file, and nothing else.
pub proof fn every_directory_is_listed_in_turn(dir: Seq<u8>, entries: Seq<StatEntry>)
    ensures
        junk::subdirs(dir, entries) == Seq::new(
            entries.len(),
            |i: int|
                if entries[i].stat is Some && entries[i].stat->0.is_dir
                    && !entries[i].stat->0.is_file {
                    seq![paths::joined(dir, entries[i].name@)]
                } else {
                    seq![]
                },
        ).flatten(),
    decreases entries.len(),
{
    let f = |es: Seq<StatEntry>|
        Seq::new(
            es.len(),
            |i: int|
                if es[i].stat is Some && es[i].stat->0.is_dir && !es[i].stat->0.is_file {
                    seq![paths::joined(dir, es[i].name@)]
                } else {
                    seq![]
                },
        );
    if entries.len() > 0 {
        let front = entries.drop_last();
        every_directory_is_listed_in_turn(dir, front);
        let last = f(entries).last();
        assert(f(entries) =~= f(front).push(last));
        f(front).lemma_flatten_push(last);
        assert(junk::subdirs(dir, entries) =~= f(entries).flatten());
    } else {
        assert(junk::subdirs(dir, entries) =~= f(entries).flatten());
    }
}

/// What a tree takes is what its files take, whatever directories they lie in.
pub proof fn trees_take_what_their_files_take(
    stat: FileStat,
    a: Seq<usage::DiskTree>,
    tree: usage::DiskTree,
)
    ensures
        usage::tree_usage(usage::DiskTree::File(stat)) == stat.usage(),
        usage::tree_usage(usage::DiskTree::Dir(a.push(tree))) == usage::tree_usage(
            usage::DiskTree::Dir(a),
        ) + usage::tree_usage(tree),
        usage::tree_usage(usage::DiskTree::Dir(seq![])) == 0,
        usage::tree_usage(usage::DiskTree::Other) == 0,
{
    reveal_with_fuel(usage::tree_usage, 2);
    reveal_with_fuel(usage::forest_usage, 2);
    assert(a.push(tree).drop_last() =~= a);
}

/// Taking the size of a tree starts with nothing found and the tree itself to list. A listing
/// adds what its entries take to what was found, and its directories behind those that wait.
pub proof fn sizes_are_taken_listing_by_listing(
    before: (nat, Seq<Seq<u8>>),
    root: Seq<u8>,
    dir: Seq<u8>,
    entries: Seq<StatEntry>,
)
    ensures
        junk::before_listing(root).0 == 0,
        junk::before_listing(root).1 == seq![root],
        junk::after_listing(before, dir, entries).0 == before.0 + junk::listing_usage(entries),
        junk::after_listing(before, dir, entries).1.len() == before.1.len() + junk::subdirs(
            dir,
            entries,
        ).len(),
        junk::after_listing(before, dir, entries).1.take(before.1.len() as int) == before.1,
        junk::after_listing(before, dir, entries).1.skip(before.1.len() as int) == junk::subdirs(
            dir,
            entries,
        ),
{
}

// ── Sizes in the tree ───────────────────────────────────────────────────

/// An entry weighs what its size says.
pub proof fn entries_weigh_their_size(hit: JunkHit, entry: TreeEntry)
    ensures
        hit.weight() == hit.size_bytes,
        entry.weight() == entry.size,
{
}

/// A directory gains the size of each entry below it, at whatever depth, and of no other: one more
/// entry of some size raises it by that size where the entry lies below it, and not otherwise.
pub proof fn a_directory_gains_what_lies_below(tree: Seq<Node>, dir: Seq<Component>, n: Node)
    ensures
        ({
            let c = paths::components(n.path);
            let below = dir.len() < c.len() && (forall|i: int|
                0 <= i < dir.len() ==> #[trigger] dir[i] == c[i]) && !(dir.len() == 0 && c[0]
                == Component::RootDir);
            &&& below ==> accumulate::size_below(tree.push(n), dir) == accumulate::size_below(
                tree,
                dir,
            ) + n.size
            &&& !below ==> accumulate::size_below(tree.push(n), dir) == accumulate::size_below(
                tree,
                dir,
            )
            &&& accumulate::size_below(seq![], dir) == 0
        }),
{
    let c = paths::components(n.path);
    sums::lemma_total_push(tree, n, accumulate::share_of(dir));
    if dir.len() < c.len() {
        if forall|i: int| 0 <= i < dir.len() ==> #[trigger] dir[i] == c[i] {
            assert(dir =~= c.subrange(0, dir.len() as int));
        }
        if dir.is_prefix_of(c) {
            assert forall|i: int| 0 <= i < dir.len() implies #[trigger] dir[i] == c[i] by {
                assert(c.subrange(0, dir.len() as int)[i] == c[i]);
            }
        }
    }
}

/// Adding up keeps every entry as it is but for its size. A directory, the last one of its path,
/// ends with its own size and that of all below it; everything else keeps its size.
pub proof fn adding_up_changes_directories_alone(tree: Seq<Node>, i: int)
    requires
        0 <= i < tree.len(),
        accumulate::sizes_fit(tree),
    ensures
        forall|k: int|
            0 <= k < tree.len() ==> accumulate::accumulated(tree).len() == tree.len() && (
            #[trigger] tree[k]).size <= accumulate::accumulated(tree)[k].size,
        ({
            let after = accumulate::accumulated(tree);
            let last = forall|j: int|
                i < j < tree.len() && (#[trigger] tree[j]).kind == EntryKind::Dir
                    ==> paths::components(tree[j].path) != paths::components(tree[i].path);
            &&& after.len() == tree.len()
            &&& after[i].path == tree[i].path && after[i].kind == tree[i].kind
            &&& after[i].depth == tree[i].depth && after[i].is_junk == tree[i].is_junk
            &&& tree[i].kind != EntryKind::Dir ==> after[i].size == tree[i].size
            &&& tree[i].kind == EntryKind::Dir && last ==> after[i].size == tree[i].size
                + accumulate::size_below(tree, paths::components(tree[i].path))
            &&& tree[i].kind == EntryKind::Dir && !last ==> after[i].size == tree[i].size
        }),
{
}

/// Sizes fit where no directory, with all that lies below it, passes 2^64, and only there.
pub proof fn sizes_fit_where_no_directory_is_too_large(tree: Seq<Node>)
    ensures
        (forall|i: int|
            0 <= i < tree.len() && (#[trigger] tree[i]).kind == EntryKind::Dir ==> tree[i].size
                + accumulate::size_below(tree, paths::components(tree[i].path)) <= u64::MAX)
            ==> accumulate::sizes_fit(tree),
        accumulate::sizes_fit(tree) ==> forall|i: int|
            0 <= i < tree.len() && (#[trigger] tree[i]).kind == EntryKind::Dir && (forall|j: int|
                i < j < tree.len() && (#[trigger] tree[j]).kind == EntryKind::Dir
                    ==> paths::components(tree[j].path) != paths::components(tree[i].path))
                ==> tree[i].size + accumulate::size_below(tree, paths::components(tree[i].path))
                <= u64::MAX,
{
    if accumulate::sizes_fit(tree) {
        assert forall|i: int|
            0 <= i < tree.len() && (#[trigger] tree[i]).kind == EntryKind::Dir && (forall|j: int|
                i < j < tree.len() && (#[trigger] tree[j]).kind == EntryKind::Dir
                    ==> paths::components(tree[j].path) != paths::components(
                    tree[i].path,
                )) implies tree[i].size + accumulate::size_below(
            tree,
            paths::components(tree[i].path),
        ) <= u64::MAX by {
            assert(tree[i].size + accumulate::gain(tree, i) <= u64::MAX);
        }
    }
}

} // verus!
