use kosu::accumulate::{accumulate_tree, can_accumulate};
use kosu::junk::JunkHit;
use kosu::junk_view::sort_hits;
use kosu::prepare::prepare;
use kosu::scan::{
    apply_junk_sizes_to_tree, chunk_size, compute_sizes, scan_all, Collected, FullScanResult,
    TreeEntry, TREE_MAX_ENTRIES,
};
use kosu::walker::{Entry, EntryKind};

fn hit(path: &str, ecosystem: &'static str, size_bytes: u64) -> JunkHit {
    JunkHit { path: path.as_bytes().to_vec(), ecosystem, size_bytes }
}

fn node(path: &str, kind: EntryKind, size: u64) -> TreeEntry {
    TreeEntry { path: path.as_bytes().to_vec(), kind, depth: 1, size, is_junk: false }
}

fn junk(path: &str, size: u64) -> TreeEntry {
    TreeEntry { is_junk: true, ..node(path, EntryKind::Dir, size) }
}

fn sizes(tree: &[TreeEntry]) -> Vec<u64> {
    tree.iter().map(|e| e.size).collect()
}

#[test]
fn an_entry_is_collected() {
    let mut c = Collected::new();
    let dir = Entry { parent: b"/r", name: b"target", kind: EntryKind::Dir, size: None };
    assert!(c.visit(&dir, Some("Rust (Cargo)"), 2, 0));
    let file = Entry { parent: b"/r/src", name: b"a.rs", kind: EntryKind::File, size: Some(9) };
    assert!(!c.visit(&file, Some("no directory"), 2, 1));
    let plain = Entry { parent: b"/r", name: b"src", kind: EntryKind::Dir, size: None };
    assert!(!c.visit(&plain, None, 2, TREE_MAX_ENTRIES));
    assert_eq!(c.hits.len(), 1);
    assert_eq!(c.hits[0].path, b"/r/target".to_vec());
    assert_eq!(c.hits[0].ecosystem, "Rust (Cargo)");
    assert_eq!(c.hits[0].size_bytes, 0);
    assert_eq!(c.tree.len(), 2);
    assert!(c.tree[0].is_junk);
    assert_eq!((c.tree[0].depth, c.tree[0].size), (1, 0));
    assert_eq!(c.tree[1].path, b"/r/src/a.rs".to_vec());
    assert_eq!((c.tree[1].depth, c.tree[1].size), (2, 9));
    assert!(!c.tree[1].is_junk);
}

#[test]
fn a_junk_hit_is_recorded_when_the_tree_is_full() {
    let mut c = Collected::new();
    let dir = Entry { parent: b".", name: b"node_modules", kind: EntryKind::Dir, size: None };
    assert!(c.visit(&dir, Some("Node"), 1, TREE_MAX_ENTRIES));
    assert_eq!(c.hits.len(), 1);
    assert!(c.tree.is_empty());
}

#[test]
fn workers_are_merged_sorted_and_without_duplicates() {
    let a = Collected {
        hits: vec![hit("/r/z", "first", 0), hit("/r/b/c", "C", 0)],
        tree: vec![node("/r/b-x", EntryKind::File, 1), node("/r/b/c", EntryKind::Dir, 2)],
    };
    let b = Collected {
        hits: vec![hit("/r//z", "second", 0), hit("/r/a", "A", 0)],
        tree: vec![node("/r/b", EntryKind::Dir, 3)],
    };
    let result = scan_all(vec![a, b]);
    let hits: Vec<(&[u8], &str)> =
        result.hits.iter().map(|h| (h.path.as_slice(), h.ecosystem)).collect();
    assert_eq!(hits, vec![(&b"/r/a"[..], "A"), (&b"/r/b/c"[..], "C"), (&b"/r/z"[..], "first")]);
    let tree: Vec<&[u8]> = result.tree.iter().map(|e| e.path.as_slice()).collect();
    assert_eq!(tree, vec![&b"/r/b"[..], &b"/r/b/c"[..], &b"/r/b-x"[..]]);
    let none = scan_all(vec![]);
    assert!(none.hits.is_empty() && none.tree.is_empty());
}

#[test]
fn hits_are_shared_out() {
    assert_eq!(chunk_size(10, 3), 3);
    assert_eq!(chunk_size(2, 8), 1);
    assert_eq!(chunk_size(0, 8), 1);
    assert_eq!(chunk_size(10, 0), 10);
}

#[test]
fn sizes_are_put_in() {
    let mut hits = vec![hit("a", "A", 0), hit("b", "B", 7)];
    compute_sizes(&mut hits, &[4, 5]);
    assert_eq!(hits.iter().map(|h| h.size_bytes).collect::<Vec<_>>(), vec![4, 5]);
    assert_eq!(hits[1].path, b"b".to_vec());
    assert_eq!(hits[1].ecosystem, "B");
}

#[test]
fn junk_entries_take_the_size_of_their_hit() {
    let hits = vec![hit("/r/x", "X", 1), hit("/r/m", "M", 5), hit("/r/x/", "X", 9)];
    let mut tree = vec![
        junk("/r/m", 0),
        junk("/r/x", 0),
        junk("/r/m", 3),
        junk("/r/none", 0),
        node("/r/x", EntryKind::Dir, 0),
    ];
    apply_junk_sizes_to_tree(&hits, &mut tree);
    // Of two hits with one path the last one counts.
    assert_eq!(sizes(&tree), vec![5, 9, 3, 0, 0]);
    let mut empty = vec![junk("a", 0)];
    apply_junk_sizes_to_tree(&[], &mut empty);
    assert_eq!(sizes(&empty), vec![0]);
}

#[test]
fn directories_gather_what_lies_below_them() {
    let mut tree = vec![
        node("/r/a", EntryKind::Dir, 0),
        node("/r/a/b", EntryKind::Dir, 0),
        node("/r/a/b/f", EntryKind::File, 5),
        node("/r/a/g", EntryKind::File, 7),
        node("/r/a-x", EntryKind::File, 100),
        node("/r/c", EntryKind::Symlink, 1),
        node("/r/c/h", EntryKind::File, 2),
    ];
    accumulate_tree(&mut tree);
    assert_eq!(sizes(&tree), vec![12, 5, 5, 7, 100, 1, 2]);
}

#[test]
fn directories_with_sizes_pass_them_on() {
    let mut tree = vec![
        node("f", EntryKind::File, 3),
        node("d", EntryKind::Dir, 10),
        node("d/e", EntryKind::Dir, 20),
        node("d/e/x", EntryKind::File, 1),
    ];
    accumulate_tree(&mut tree);
    assert_eq!(sizes(&tree), vec![3, 31, 21, 1]);
}

#[test]
fn of_two_directories_with_one_path_the_last_gathers() {
    let mut tree = vec![
        node("d/f", EntryKind::File, 3),
        node("d", EntryKind::Dir, 1),
        node("./d", EntryKind::Dir, 50),
        node("d/", EntryKind::Dir, 2),
        node("d", EntryKind::File, 4),
    ];
    accumulate_tree(&mut tree);
    assert_eq!(sizes(&tree), vec![3, 1, 50, 5, 4]);
}

#[test]
fn the_empty_path_leads_to_relative_paths_only() {
    let mut tree = vec![
        node("", EntryKind::Dir, 0),
        node("/", EntryKind::Dir, 0),
        node("/a", EntryKind::File, 1),
        node("b", EntryKind::File, 2),
        node("./c", EntryKind::File, 4),
    ];
    accumulate_tree(&mut tree);
    assert_eq!(sizes(&tree), vec![6, 1, 1, 2, 4]);
}

#[test]
fn sums_that_do_not_fit_are_noticed() {
    let fits = vec![
        node("a", EntryKind::Dir, 0),
        node("a/x", EntryKind::File, u64::MAX),
        node("b", EntryKind::Dir, 0),
        node("b/x", EntryKind::File, u64::MAX),
    ];
    assert!(can_accumulate(&fits));
    let mut tree = fits;
    accumulate_tree(&mut tree);
    assert_eq!(sizes(&tree), vec![u64::MAX; 4]);
    let over = vec![node("a", EntryKind::Dir, 1), node("a/x", EntryKind::File, u64::MAX)];
    assert!(!can_accumulate(&over));
}

#[test]
fn hits_are_sorted_by_size() {
    let sorted =
        sort_hits(vec![hit("a", "1", 5), hit("b", "2", 9), hit("c", "3", 5), hit("d", "4", 0)]);
    let order: Vec<&str> = sorted.iter().map(|h| h.ecosystem).collect();
    assert_eq!(order, vec!["2", "1", "3", "4"]);
}

#[test]
fn a_scan_is_prepared() {
    let found = || FullScanResult {
        hits: vec![hit("r/a/target", "Rust", 0), hit("r/node_modules", "Node", 0)],
        tree: vec![
            node("r/a", EntryKind::Dir, 0),
            node("r/a/f", EntryKind::File, 3),
            junk("r/a/target", 0),
            junk("r/node_modules", 0),
        ],
    };
    let ready = prepare(found(), &[10, 20]).unwrap();
    assert_eq!(ready.hits[0].ecosystem, "Node");
    assert_eq!(ready.hits[0].size_bytes, 20);
    assert_eq!(ready.hits[1].size_bytes, 10);
    assert_eq!(sizes(&ready.tree), vec![13, 3, 10, 20]);
    assert!(prepare(found(), &[u64::MAX, 20]).is_none());
}

#[test]
fn the_order_of_entries_does_not_matter_for_sizes() {
    let entries = || {
        vec![
            node("r/a", EntryKind::Dir, 0),
            node("r/a/b", EntryKind::Dir, 0),
            node("r/a/b/f", EntryKind::File, 5),
            node("r/a/g", EntryKind::File, 7),
        ]
    };
    let mut forward = entries();
    let mut backward = entries();
    backward.reverse();
    accumulate_tree(&mut forward);
    accumulate_tree(&mut backward);
    backward.reverse();
    assert_eq!(sizes(&forward), sizes(&backward));
    // A directory above everything weighs as much as all entries did.
    let mut whole = entries();
    whole.push(node("r", EntryKind::Dir, 0));
    accumulate_tree(&mut whole);
    assert_eq!(whole[4].size, 12);
    assert!(whole[0].size >= whole[1].size);
}

#[test]
fn the_order_of_hits_does_not_matter_for_sizes() {
    let mut one = vec![junk("/r/x", 0), junk("/r/y", 0)];
    let mut other = vec![junk("/r/x", 0), junk("/r/y", 0)];
    apply_junk_sizes_to_tree(&[hit("/r/x", "X", 1), hit("/r/y", "Y", 2)], &mut one);
    apply_junk_sizes_to_tree(&[hit("/r/y", "Y", 2), hit("/r/x", "X", 1)], &mut other);
    assert_eq!(sizes(&one), vec![1, 2]);
    assert_eq!(sizes(&one), sizes(&other));
}

#[test]
fn what_a_directory_lists_is_one_deeper() {
    let mut c = Collected::new();
    for (parent, name) in [(&b"."[..], &b"a"[..]), (b"./a", b"b"), (b"./a/b", b"c")] {
        c.visit(&Entry { parent, name, kind: EntryKind::Dir, size: None }, None, 1, 0);
    }
    let depths: Vec<usize> = c.tree.iter().map(|e| e.depth).collect();
    assert_eq!(depths, vec![1, 2, 3]);
}
