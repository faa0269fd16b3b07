//! Whole runs over directories that are held in memory.

use std::collections::HashMap;

use kosu::counters::Counters;
use kosu::junk::{dir_size, FileStat, StatEntry};
use kosu::paths::component_count;
use kosu::platform::RawEntry;
use kosu::pool::RootedDir;
use kosu::scan::{scan_all, Collected, FullScanResult, TREE_MAX_ENTRIES};
use kosu::tree::{build_children_index, is_sorted_by_path};
use kosu::walker::{can_count, flush_local, process_dir, process_size_dir, EntryKind};

type Disk = HashMap<&'static str, Vec<(&'static str, EntryKind, u64)>>;

fn disk() -> Disk {
    HashMap::from([
        (
            "/r",
            vec![
                ("src", EntryKind::Dir, 0),
                ("target", EntryKind::Dir, 0),
                ("link", EntryKind::Symlink, 0),
                ("a", EntryKind::File, 7),
            ],
        ),
        ("/r/src", vec![("x.rs", EntryKind::File, 5), ("deep", EntryKind::Dir, 0)]),
        ("/r/src/deep", vec![("y.rs", EntryKind::File, 3), ("target", EntryKind::Dir, 0)]),
        ("/r/target", vec![("big", EntryKind::File, 1000), ("debug", EntryKind::Dir, 0)]),
        ("/r/src/deep/target", vec![("big", EntryKind::File, 1000)]),
    ])
}

fn list(disk: &Disk, dir: &[u8]) -> Vec<RawEntry> {
    let dir = String::from_utf8(dir.to_vec()).unwrap();
    disk.get(dir.as_str())
        .map(|entries| {
            entries
                .iter()
                .map(|&(name, kind, size)| RawEntry {
                    name: name.as_bytes().to_vec(),
                    kind,
                    size: Some(size),
                })
                .collect()
        })
        .unwrap_or_default()
}

/// A scan by `workers` workers who take turns; `newest` takes the newest task first.
fn scan(workers: usize, newest: bool) -> FullScanResult {
    let disk = disk();
    let mut locals: Vec<Collected> = (0..workers).map(|_| Collected::new()).collect();
    let mut waiting = vec![RootedDir { root_idx: 0, path: b"/r".to_vec() }];
    let mut turn = 0;
    let mut taken = 0;
    while !waiting.is_empty() {
        let task = if newest { waiting.pop().unwrap() } else { waiting.remove(0) };
        let listing = list(&disk, &task.path);
        let ecosystems: Vec<Option<&'static str>> = listing
            .iter()
            .map(|e| (e.name == b"target").then_some("Rust (Cargo)"))
            .collect();
        let local = &mut locals[turn % workers];
        let skips = local.visit_listing(
            &task.path,
            &listing,
            &ecosystems,
            component_count(b"/r"),
            taken,
        );
        taken += listing.len();
        turn += 1;
        waiting.extend(process_dir(&task, &listing, &skips, false));
    }
    scan_all(locals)
}

fn facts(result: &FullScanResult) -> Vec<(String, EntryKind, usize, u64, bool)> {
    result
        .tree
        .iter()
        .map(|e| {
            let path = String::from_utf8(e.path.clone()).unwrap();
            (path, e.kind, e.depth, e.size, e.is_junk)
        })
        .collect()
}

#[test]
fn a_scan_lists_every_entry_once_and_nothing_below_junk() {
    let result = scan(1, true);
    let dir = |path: &str, depth, junk| (path.to_owned(), EntryKind::Dir, depth, 0, junk);
    let file = |path: &str, depth, size| (path.to_owned(), EntryKind::File, depth, size, false);
    assert_eq!(
        facts(&result),
        vec![
            file("/r/a", 1, 7),
            ("/r/link".to_owned(), EntryKind::Symlink, 1, 0, false),
            dir("/r/src", 1, false),
            dir("/r/src/deep", 2, false),
            dir("/r/src/deep/target", 3, true),
            file("/r/src/deep/y.rs", 3, 3),
            file("/r/src/x.rs", 2, 5),
            dir("/r/target", 1, true),
        ]
    );
    let hits: Vec<&[u8]> = result.hits.iter().map(|h| h.path.as_slice()).collect();
    assert_eq!(hits, vec![&b"/r/src/deep/target"[..], &b"/r/target"[..]]);
    assert!(is_sorted_by_path(&result.tree));
    assert_eq!(build_children_index(&result.tree)[&2], vec![6, 3]);
}

#[test]
fn a_scan_does_not_depend_on_its_workers() {
    let one = scan(1, true);
    for (workers, newest) in [(1, false), (2, true), (3, false), (8, true)] {
        let other = scan(workers, newest);
        assert_eq!(facts(&other), facts(&one));
        assert_eq!(other.hits.len(), one.hits.len());
        for (a, b) in other.hits.iter().zip(&one.hits) {
            assert_eq!((&a.path, a.ecosystem), (&b.path, b.ecosystem));
        }
    }
}

#[test]
fn a_listing_fills_the_tree_to_its_limit() {
    let listing = list(&disk(), b"/r");
    let ecosystems = [None, Some("Rust (Cargo)"), Some("no directory"), None];
    let mut c = Collected::new();
    let skips = c.visit_listing(b"/r", &listing, &ecosystems, 2, TREE_MAX_ENTRIES - 2);
    assert_eq!(skips, vec![false, true, false, false]);
    assert_eq!(c.tree.len(), 2);
    assert_eq!(c.tree[1].path, b"/r/target".to_vec());
    assert_eq!(c.hits.len(), 1);
    let skips = c.visit_listing(b"/q", &listing, &ecosystems, 1, TREE_MAX_ENTRIES);
    assert_eq!(skips, vec![false, true, false, false]);
    assert_eq!(c.tree.len(), 2);
    assert_eq!(c.hits[1].path, b"/q/target".to_vec());
}

#[test]
fn a_walk_adds_up_the_sizes_of_each_root() {
    let disk = disk();
    let mut locals = [vec![0u64; 2], vec![0u64; 2]];
    let mut waiting = vec![
        RootedDir { root_idx: 0, path: b"/r".to_vec() },
        RootedDir { root_idx: 1, path: b"/r/src".to_vec() },
    ];
    let mut turn = 0;
    while let Some(task) = waiting.pop() {
        let listing = list(&disk, &task.path);
        let local = &mut locals[turn % 2];
        assert!(can_count(&task, &listing, local));
        waiting.extend(process_size_dir(&task, &listing, local, false));
        turn += 1;
    }
    let mut totals = vec![0u64; 2];
    for local in &locals {
        flush_local(&mut totals, local);
    }
    assert_eq!(totals, vec![2015, 1008]);
    let full = [u64::MAX - 6, 0];
    let task = RootedDir { root_idx: 0, path: b"/r".to_vec() };
    assert!(!can_count(&task, &list(&disk, b"/r"), &full));
    assert!(can_count(&task, &list(&disk, b"/r/none"), &full));
}

#[test]
fn a_walk_counts_every_entry() {
    let disk = disk();
    let mut locals = [Counters::new(), Counters::new()];
    let mut waiting = vec![RootedDir { root_idx: 0, path: b"/r".to_vec() }];
    let mut turn = 0;
    while let Some(task) = waiting.pop() {
        let listing = list(&disk, &task.path);
        assert!(locals[turn % 2].can_record(&listing));
        locals[turn % 2].record_listing(&listing);
        turn += 1;
        waiting.extend(process_dir(&task, &listing, &vec![false; listing.len()], false));
    }
    let mut all = Counters::new();
    for local in &locals {
        all.merge(local);
    }
    assert_eq!((all.entries, all.dirs, all.files, all.symlinks), (11, 5, 5, 1));
    assert_eq!(all.total_size, 2015);
    let listing = list(&disk, b"/r");
    let full = Counters { total_size: u64::MAX - 6, ..Counters::new() };
    assert!(!full.can_record(&listing));
    assert!(full.can_record(&listing[..3]));
    let many = Counters { entries: u64::MAX - 3, ..Counters::new() };
    assert!(!many.can_record(&listing));
    assert!(many.can_record(&listing[..3]));
    let dirs = Counters { dirs: u64::MAX - 1, ..Counters::new() };
    assert!(!dirs.can_record(&listing));
    // What does not fit the counters of all wraps around.
    let mut wrapped = Counters { total_size: u64::MAX, ..Counters::new() };
    wrapped.merge(&all);
    assert_eq!((wrapped.entries, wrapped.total_size), (11, 2014));
}

fn stat(is_file: bool, blocks: u64, len: u64) -> Option<FileStat> {
    Some(FileStat { is_file, is_dir: !is_file, blocks: Some(blocks), len })
}

/// The size of a tree of two directories whose files are this long.
fn size_with(lengths: [u64; 2]) -> u64 {
    let mut walk = dir_size(b"/j");
    while let Some(dir) = walk.next_dir() {
        let entries = if dir == b"/j" {
            vec![
                StatEntry { name: b"f".to_vec(), stat: stat(true, 16, lengths[0]) },
                StatEntry { name: b"d".to_vec(), stat: stat(false, 1, 0) },
                StatEntry { name: b"gone".to_vec(), stat: None },
            ]
        } else {
            assert_eq!(dir, b"/j/d".to_vec());
            vec![StatEntry { name: b"g".to_vec(), stat: stat(true, 3, lengths[1]) }]
        };
        assert!(walk.can_add(&entries));
        walk.dir_size_inner(&dir, &entries);
    }
    walk.total()
}

#[test]
fn only_blocks_count() {
    assert_eq!(size_with([10, 20]), 19 * 512);
    assert_eq!(size_with([1 << 50, 0]), 19 * 512);
}

#[test]
fn sizes_that_do_not_fit_are_noticed() {
    let mut walk = dir_size(b"/j");
    let half = |len: u64| StatEntry {
        name: b"f".to_vec(),
        stat: Some(FileStat { is_file: true, is_dir: false, blocks: None, len }),
    };
    assert!(walk.can_add(&[half(u64::MAX)]));
    assert!(!walk.can_add(&[half(u64::MAX), half(1)]));
    walk.dir_size_inner(b"/j", &[half(2)]);
    assert!(!walk.can_add(&[half(u64::MAX - 1)]));
    assert!(walk.can_add(&[half(u64::MAX - 2)]));
    let blocks = StatEntry { name: b"b".to_vec(), stat: stat(true, 1 << 60, 0) };
    assert!(!walk.can_add(&[blocks]));
    let dir = StatEntry { name: b"d".to_vec(), stat: stat(false, 1 << 60, 0) };
    assert!(walk.can_add(&[dir]));
}
