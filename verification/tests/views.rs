use std::collections::{HashMap, HashSet};

use kosu::junk::JunkHit;
use kosu::junk_view::{self, JunkView};
use kosu::scan::TreeEntry;
use kosu::tree::{
    build_children_index, build_visible_list, by_size, is_sorted_by_path, TreeIndex, VisibleRow,
};
use kosu::tree_view::{self, TreeView};
use kosu::view::{
    fits_key, fits_scroll, page_rows, progress, scroll_by, selected_count, shell_key, sum_selected,
    tab_shade, wheel_rows, Key, Rgb, ShellStep, Turn, Window,
};
use kosu::walker::EntryKind;

fn hits() -> Vec<JunkHit> {
    vec![
        JunkHit { path: b"/p/node_modules".to_vec(), ecosystem: "Node", size_bytes: 2048 },
        JunkHit { path: b"/p/target".to_vec(), ecosystem: "Rust (Cargo)", size_bytes: 100 },
        JunkHit { path: b"/p/.venv".to_vec(), ecosystem: "Python", size_bytes: 0 },
    ]
}

fn node(path: &str, kind: EntryKind, depth: usize, size: u64) -> TreeEntry {
    TreeEntry { path: path.as_bytes().to_vec(), kind, depth, size, is_junk: false }
}

/// Sorted by path:
/// 0 r/a (dir), 1 r/a/b (dir), 2 r/a/b/f, 3 r/a/g, 4 r/h.
fn tree() -> Vec<TreeEntry> {
    vec![
        node("r/a", EntryKind::Dir, 1, 60),
        node("r/a/b", EntryKind::Dir, 2, 20),
        node("r/a/b/f", EntryKind::File, 3, 20),
        node("r/a/g", EntryKind::File, 2, 40),
        node("r/h", EntryKind::Symlink, 1, 0),
    ]
}

#[test]
fn keys_of_the_frame() {
    assert_eq!(shell_key(Key::Char('q')), ShellStep::Quit);
    assert_eq!(shell_key(Key::Escape), ShellStep::Quit);
    assert_eq!(shell_key(Key::Char('1')), ShellStep::ShowJunk);
    assert_eq!(shell_key(Key::Char('2')), ShellStep::ShowTree);
    assert_eq!(shell_key(Key::Char('j')), ShellStep::Page);
    assert_eq!(shell_key(Key::Enter), ShellStep::Page);
    assert_eq!(wheel_rows(Turn::Down), 3);
    assert_eq!(wheel_rows(Turn::Up), -3);
    assert_eq!(wheel_rows(Turn::Still), 0);
    assert_eq!(tab_shade(true), Rgb { r: 60, g: 60, b: 100 });
    assert_eq!(tab_shade(false), Rgb { r: 30, g: 30, b: 50 });
}

#[test]
fn pages_leave_room_for_the_frame() {
    assert_eq!(page_rows(Some(24)), 19);
    assert_eq!(page_rows(Some(3)), 0);
    assert_eq!(page_rows(None), 35);
}

#[test]
fn scrolling_keeps_the_cursor_in_view() {
    let at = |cursor, viewport| Window { cursor, viewport };
    assert_eq!(scroll_by(1, at(0, 0), 10, 99), at(1, 0));
    assert_eq!(scroll_by(1, at(9, 0), 10, 99), at(10, 1));
    assert_eq!(scroll_by(10, at(9, 0), 10, 99), at(19, 10));
    assert_eq!(scroll_by(10, at(95, 90), 10, 99), at(99, 90));
    assert_eq!(scroll_by(-1, at(5, 5), 10, 99), at(4, 4));
    assert_eq!(scroll_by(-100, at(5, 5), 10, 99), at(0, 0));
    assert_eq!(scroll_by(0, at(50, 5), 10, 99), at(50, 41));
    assert_eq!(scroll_by(5, at(50, 45), 10, 7), at(7, 7));
    assert_eq!(scroll_by(i32::MAX, at(usize::MAX - 1, 0), 1, usize::MAX), at(usize::MAX, usize::MAX));
}

#[test]
fn junk_tab_moves() {
    let hits = hits();
    let mut tab = JunkView::new(hits.len());
    assert_eq!(tab.selected, vec![true; 3]);
    tab.key(Key::Char('j'), 2, &hits);
    assert_eq!(tab.window, Window { cursor: 1, viewport: 0 });
    tab.key(Key::ArrowDown, 2, &hits);
    assert_eq!(tab.window, Window { cursor: 2, viewport: 1 });
    tab.key(Key::Char('j'), 2, &hits);
    assert_eq!(tab.window, Window { cursor: 2, viewport: 1 });
    tab.key(Key::Char('k'), 2, &hits);
    assert_eq!(tab.window, Window { cursor: 1, viewport: 1 });
    tab.key(Key::Char('g'), 2, &hits);
    assert_eq!(tab.window, Window { cursor: 0, viewport: 0 });
    tab.key(Key::End, 2, &hits);
    assert_eq!(tab.window, Window { cursor: 2, viewport: 1 });
    tab.key(Key::PageUp, 2, &hits);
    assert_eq!(tab.window, Window { cursor: 0, viewport: 0 });
    tab.key(Key::PageDown, 2, &hits);
    assert_eq!(tab.window, Window { cursor: 2, viewport: 1 });
    tab.key(Key::Home, 0, &hits);
    assert_eq!(tab.window, Window { cursor: 0, viewport: 0 });
    tab.scroll(3, 2, hits.len());
    assert_eq!(tab.window.cursor, 2);
}

#[test]
fn junk_tab_selects_and_deletes() {
    let hits = hits();
    let mut tab = JunkView::new(hits.len());
    assert!(tab.key(Key::Space, 10, &hits).is_empty());
    assert_eq!(tab.selected, vec![false, true, true]);
    tab.key(Key::Char('a'), 10, &hits);
    assert_eq!(tab.selected, vec![true; 3]);
    tab.key(Key::Char('a'), 10, &hits);
    assert_eq!(tab.selected, vec![false; 3]);
    assert!(tab.key(Key::Char('d'), 10, &hits).is_empty());
    assert_eq!(tab.message, "Nothing selected.");
    tab.click(2);
    tab.click(0);
    assert_eq!(tab.window.cursor, 0);
    let doomed = tab.key(Key::Enter, 10, &hits);
    assert_eq!(doomed, vec![b"/p/node_modules".to_vec(), b"/p/.venv".to_vec()]);
    assert_eq!(tab.message, "Deleting 0/2...");
    assert_eq!(tab.delete_total, 2);
    tab.poll(1);
    assert_eq!(tab.message, "Deleting 1/2...");
    tab.poll(0);
    assert_eq!(tab.message, "Done: 2 deleted.");
    assert_eq!(progress(3, 3), "Deleting 0/3...");
    tab.key(Key::Other, 10, &hits);
    assert_eq!(tab.message, "Done: 2 deleted.");
}

#[test]
fn junk_tab_shows_its_rows() {
    let hits = hits();
    let mut tab = JunkView::new(hits.len());
    tab.click(1);
    let rows = junk_view::rows(&tab, &hits, 2);
    assert_eq!(rows.len(), 2);
    assert_eq!(rows[0].checkbox, " [x] ");
    assert_eq!(rows[0].ecosystem, format!("{:<24}", "Node"));
    assert_eq!(rows[0].size, "      2 KB");
    assert_eq!(rows[0].path, " /p/node_modules");
    assert_eq!(rows[0].background, Rgb { r: 18, g: 18, b: 28 });
    assert_eq!(rows[1].checkbox, " [ ] ");
    assert_eq!(rows[1].background, Rgb { r: 50, g: 50, b: 80 });
    tab.window = Window { cursor: 0, viewport: 2 };
    let rows = junk_view::rows(&tab, &hits, 5);
    assert_eq!(rows.len(), 1);
    assert_eq!(rows[0].index, 2);
    tab.window = Window { cursor: 0, viewport: 3 };
    assert!(junk_view::rows(&tab, &hits, 5).is_empty());
}

#[test]
fn junk_tab_header_and_footer() {
    let hits = hits();
    let mut tab = JunkView::new(hits.len());
    let sum = junk_view::sum_sizes(&hits).unwrap();
    assert_eq!(sum, 2148);
    assert_eq!(sum_selected(&hits, &tab.selected), Some(2148));
    tab.click(0);
    assert_eq!(sum_selected(&hits, &tab.selected), Some(100));
    assert_eq!(selected_count(&tab.selected), 2);
    let (items, chosen) = junk_view::header(3, sum, 2, 100);
    assert_eq!(items, "3 items    2 KB");
    assert_eq!(chosen, "Selected: 2 (100 B)");
    assert_eq!(junk_view::footer(&tab, 3), " j/k ↑↓ PgUp/Dn g/G space a d  1/3");
    tab.message = "hello".to_owned();
    assert_eq!(junk_view::footer(&tab, 3), " j/k ↑↓ PgUp/Dn g/G space a d  1/3  │ hello");
    let huge = vec![
        JunkHit { path: vec![], ecosystem: "", size_bytes: u64::MAX },
        JunkHit { path: vec![], ecosystem: "", size_bytes: 1 },
    ];
    assert_eq!(junk_view::sum_sizes(&huge), None);
    assert_eq!(sum_selected(&huge, &[true, true]), None);
    assert_eq!(sum_selected(&huge, &[false, true]), Some(1));
}

#[test]
fn the_report_without_a_terminal() {
    let dashes = "─".repeat(70);
    let expected = format!(
        "\n  kosu junk finder — {} items — {}\n  {}\n  {:>10}  {:<22} {}\n  {:>10}  {:<22} {}\n  {:>10}  {:<22} {}\n  {}\n  Total: {}\n\n",
        3, "2 KB", dashes, "2 KB", "Node", "/p/node_modules", "100 B", "Rust (Cargo)",
        "/p/target", "0 B", "Python", "/p/.venv", dashes, "2 KB"
    );
    assert_eq!(junk_view::headless_output(&hits()), expected);
    let none = format!(
        "\n  kosu junk finder — 0 items — 0 B\n  {}\n  {}\n  Total: 0 B\n\n",
        dashes, dashes
    );
    assert_eq!(junk_view::headless_output(&[]), none);
}

#[test]
fn children_are_those_in_the_directory() {
    let tree = tree();
    let children = build_children_index(&tree);
    assert_eq!(children, HashMap::from([(0, vec![3, 1]), (1, vec![2])]));
    assert_eq!(by_size(&tree), vec![0, 3, 1, 2, 4]);
    // Deeper by two is no child, and a file has none.
    let odd = vec![
        node("r/a", EntryKind::Dir, 1, 1),
        node("r/a/b/c", EntryKind::File, 3, 1),
        node("r/f", EntryKind::File, 1, 1),
        node("r/g", EntryKind::File, 2, 1),
    ];
    assert!(build_children_index(&odd).is_empty());
    // The depths agree, and yet the file lies in another directory.
    let apart = vec![
        node("/r/a", EntryKind::Dir, 1, 1),
        node("/r/b/x", EntryKind::File, 2, 1),
    ];
    assert!(build_children_index(&apart).is_empty());
    // A file holds nothing, and the root holds what is directly in it.
    let top = vec![
        node("/", EntryKind::Dir, 0, 1),
        node("/a", EntryKind::File, 1, 1),
        node("/a/b", EntryKind::File, 2, 2),
        node("/c", EntryKind::File, 1, 3),
    ];
    assert_eq!(build_children_index(&top), HashMap::from([(0, vec![3, 1])]));
}

#[test]
fn trees_are_sorted_component_by_component() {
    assert!(is_sorted_by_path(&[]));
    assert!(is_sorted_by_path(&tree()));
    let mut tree = tree();
    tree.swap(1, 3);
    assert!(!is_sorted_by_path(&tree));
    let dots = vec![
        node("a/b", EntryKind::File, 1, 0),
        node("a.b", EntryKind::File, 1, 0),
        node("a.b", EntryKind::File, 1, 0),
    ];
    assert!(is_sorted_by_path(&dots));
}

fn row(data_idx: usize, indent: usize, parent_data_idx: Option<usize>) -> VisibleRow {
    VisibleRow { data_idx, indent, parent_data_idx }
}

#[test]
fn expanded_directories_show_what_they_hold() {
    let tree = tree();
    let index = TreeIndex::new(&tree);
    let mut expanded: HashSet<usize> = HashSet::new();
    let flat = index.visible(&tree, &expanded);
    assert_eq!(
        flat,
        vec![row(0, 0, None), row(3, 0, None), row(1, 0, None), row(2, 0, None), row(4, 0, None)]
    );
    expanded.insert(0);
    expanded.insert(1);
    let open = build_visible_list(&tree, &index.children, &index.by_size, &expanded);
    assert_eq!(
        open,
        vec![
            row(0, 0, None),
            row(3, 1, Some(0)),
            row(1, 1, Some(0)),
            row(2, 2, Some(1)),
            row(3, 0, None),
            row(1, 0, None),
            row(2, 1, Some(1)),
            row(2, 0, None),
            row(4, 0, None),
        ]
    );
}

#[test]
fn the_size_view_has_a_limit() {
    let tree: Vec<TreeEntry> = (0..100_010).map(|_| node("f", EntryKind::File, 1, 1)).collect();
    let index = TreeIndex::new(&tree);
    assert_eq!(index.visible(&tree, &HashSet::new()).len(), 100_001);
}

#[test]
fn tree_tab_expands_and_collapses() {
    let tree = tree();
    let index = TreeIndex::new(&tree);
    let mut tab = TreeView::new(tree.len());
    assert!(tab.size_mode);
    tab.key(Key::Char('l'), 10, &tree, &index);
    assert!(tab.expanded.contains(&0));
    tab.key(Key::Char('h'), 10, &tree, &index);
    assert!(tab.expanded.is_empty());
    tab.key(Key::ArrowRight, 10, &tree, &index);
    // On a child, which is a file: nothing to expand, and collapsing closes its directory.
    tab.window = Window { cursor: 1, viewport: 0 };
    tab.key(Key::Char('l'), 10, &tree, &index);
    assert_eq!(tab.expanded.len(), 1);
    tab.key(Key::ArrowLeft, 10, &tree, &index);
    assert!(tab.expanded.is_empty());
    // A file at the top has no directory to close.
    tab.key(Key::ArrowLeft, 10, &tree, &index);
    assert!(tab.expanded.is_empty());
    tab.key(Key::Char('s'), 10, &tree, &index);
    assert!(!tab.size_mode);
    assert_eq!(tab.window, Window { cursor: 0, viewport: 0 });
    tab.key(Key::Char('l'), 10, &tree, &index);
    assert!(tab.expanded.is_empty());
}

#[test]
fn tree_tab_moves_over_the_rows_that_it_shows() {
    let tree = tree();
    let index = TreeIndex::new(&tree);
    let mut tab = TreeView::new(tree.len());
    tab.key(Key::Char('G'), 3, &tree, &index);
    assert_eq!(tab.window, Window { cursor: 4, viewport: 2 });
    tab.key(Key::Home, 3, &tree, &index);
    tab.key(Key::Char('l'), 3, &tree, &index);
    // The two children of the first directory make seven rows.
    tab.key(Key::Char('G'), 3, &tree, &index);
    assert_eq!(tab.window, Window { cursor: 6, viewport: 4 });
    tab.key(Key::Char('j'), 3, &tree, &index);
    assert_eq!(tab.window.cursor, 6);
    tab.key(Key::Char('g'), 3, &tree, &index);
    tab.key(Key::End, 3, &tree, &index);
    assert_eq!(tab.window.cursor, 6);
    tab.key(Key::Char('s'), 3, &tree, &index);
    tab.key(Key::End, 3, &tree, &index);
    assert_eq!(tab.window.cursor, 4);
}

#[test]
fn tree_tab_selects_and_deletes() {
    let tree = tree();
    let index = TreeIndex::new(&tree);
    let mut tab = TreeView::new(tree.len());
    assert_eq!(tab.selected, vec![false; 5]);
    tab.key(Key::Char('j'), 10, &tree, &index);
    tab.key(Key::Char(' '), 10, &tree, &index);
    // The second row by size shows entry 3.
    assert_eq!(tab.selected, vec![false, false, false, true, false]);
    tab.key(Key::Char('a'), 10, &tree, &index);
    assert_eq!(tab.selected, vec![false; 5]);
    assert!(tab.key(Key::Enter, 10, &tree, &index).is_empty());
    assert_eq!(tab.message, "Nothing selected.");
    tab.key(Key::Char('a'), 10, &tree, &index);
    assert_eq!(tab.selected, vec![true; 5]);
    assert_eq!(sum_selected(&tree, &tab.selected), Some(140));
    tab.key(Key::Char('a'), 10, &tree, &index);
    tab.click(2, 1);
    assert_eq!(tab.window.cursor, 2);
    let doomed = tab.key(Key::Char('d'), 10, &tree, &index);
    assert_eq!(doomed, vec![b"r/a/b".to_vec()]);
    assert_eq!(tab.message, "Deleting 0/1...");
    tab.poll(0);
    assert_eq!(tab.message, "Done: 1 deleted.");
    // Where no row is under the cursor, the first entry is meant.
    assert!(!tab.selected[0]);
    tab.window = Window { cursor: 77, viewport: 77 };
    tab.key(Key::Space, 10, &tree, &index);
    assert!(tab.selected[0]);
    tab.key(Key::Char('s'), 10, &tree, &index);
    tab.window = Window { cursor: 4, viewport: 0 };
    tab.key(Key::Space, 10, &tree, &index);
    assert!(tab.selected[4]);
    tab.scroll(-3, 10, tree.len());
    assert_eq!(tab.window.cursor, 1);
}

#[test]
fn tree_tab_shows_its_rows() {
    let mut tree = tree();
    tree[3].is_junk = true;
    let index = TreeIndex::new(&tree);
    let mut tab = TreeView::new(tree.len());
    tab.key(Key::Char('l'), 10, &tree, &index);
    let visible = tree_view::visible_rows(&tab, &tree, &index);
    assert_eq!(tree_view::row_count(&tab, &tree, &visible), 7);
    let rows = tree_view::rows(&tab, &tree, &visible, 3);
    assert_eq!(rows.len(), 3);
    assert_eq!(rows[0].label, " ▼ r/a");
    assert_eq!(rows[0].size, "      60 B");
    assert_eq!(rows[0].color, Rgb { r: 100, g: 170, b: 255 });
    assert_eq!(rows[0].background, Rgb { r: 50, g: 50, b: 80 });
    assert_eq!(rows[1].label, format!(" {}{}{}g", "  ", "  ", "   "));
    assert_eq!(rows[1].color, Rgb { r: 255, g: 100, b: 100 });
    assert_eq!(rows[2].label, "   ▶ 📁 b");
    assert_eq!(rows[2].data_idx, 1);
    tab.key(Key::Char('s'), 10, &tree, &index);
    let visible = tree_view::visible_rows(&tab, &tree, &index);
    assert!(visible.is_empty());
    assert_eq!(tree_view::row_count(&tab, &tree, &visible), 5);
    let rows = tree_view::rows(&tab, &tree, &visible, 10);
    assert_eq!(rows.len(), 5);
    assert_eq!(rows[0].label, "  📁 a");
    assert_eq!(rows[2].label, format!("{}{}f", "  ".repeat(3), "   "));
    assert_eq!(rows[4].label, "  🔗 h");
    assert_eq!(rows[4].size, "          ");
    assert_eq!(rows[4].color, Rgb { r: 200, g: 150, b: 255 });
    assert_eq!(rows[2].color, Rgb { r: 180, g: 180, b: 190 });
    assert_eq!(rows[4].checkbox, " [ ] ");
}

#[test]
fn tree_tab_header_and_footer() {
    let mut tab = TreeView::new(5);
    let (entries, chosen) = tree_view::header(7, true, 1, 1024);
    assert_eq!(entries, "7 entries  [BY SIZE]  l/→:expand h/←:collapse");
    assert_eq!(chosen, "Selected: 1 (1 KB)");
    assert_eq!(tree_view::header(5, false, 0, 0).0, "5 entries  [TREE]");
    assert_eq!(
        tree_view::footer(&tab, 7),
        " j/k ↑↓ l/h:expand/collapse space a d s:sort  1/7"
    );
    tab.message = "x".to_owned();
    assert_eq!(
        tree_view::footer(&tab, 7),
        " j/k ↑↓ l/h:expand/collapse space a d s:sort  1/7  │ x"
    );
}

#[test]
fn selecting_twice_changes_nothing() {
    let hits = hits();
    let mut tab = JunkView::new(hits.len());
    tab.key(Key::Char('j'), 5, &hits);
    let before = tab.selected.clone();
    tab.key(Key::Space, 5, &hits);
    assert_ne!(tab.selected, before);
    tab.key(Key::Char(' '), 5, &hits);
    assert_eq!(tab.selected, before);
}

#[test]
fn without_a_row_the_window_follows_upwards_only() {
    let w = Window { cursor: 5, viewport: 5 };
    for key in [Key::Char('j'), Key::Char('G'), Key::End, Key::PageDown, Key::PageUp] {
        assert!(!fits_key(key, w, 0, 9));
        assert!(fits_key(key, w, 1, 9));
    }
    for key in [Key::Char('k'), Key::ArrowUp, Key::Char('g'), Key::Home, Key::Space] {
        assert!(fits_key(key, w, 0, 9));
    }
    assert!(fits_scroll(-3, w, 0, 9));
    assert!(!fits_scroll(3, w, 0, 9));
    assert!(!fits_scroll(0, w, 0, 9));
    assert_eq!(scroll_by(-3, w, 0, 9), Window { cursor: 2, viewport: 2 });
    // A list that has become shorter takes the cursor above the window.
    assert!(fits_scroll(3, w, 0, 4));
    assert_eq!(scroll_by(3, w, 0, 4), Window { cursor: 4, viewport: 4 });
    let hits = hits();
    let mut tab = JunkView::new(hits.len());
    tab.window = Window { cursor: 2, viewport: 2 };
    tab.key(Key::Char('k'), 0, &hits);
    assert_eq!(tab.window, Window { cursor: 1, viewport: 1 });
    tab.scroll(-3, 0, hits.len());
    assert_eq!(tab.window, Window { cursor: 0, viewport: 0 });
}

#[test]
fn expanding_keeps_the_rows_above() {
    let tree = tree();
    let index = TreeIndex::new(&tree);
    let none: HashSet<usize> = HashSet::new();
    let one: HashSet<usize> = [1].into_iter().collect();
    let before = index.visible(&tree, &none);
    let after = index.visible(&tree, &one);
    // Entry 1 is first shown in row 2.
    assert_eq!(before[..3], after[..3]);
    assert_eq!(after[3], row(2, 1, Some(1)));
}
