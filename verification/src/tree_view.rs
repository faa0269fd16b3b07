//! The tree tab: all scanned entries, by size or as they lie in the tree.

use std::collections::HashSet;
use vstd::prelude::*;

use crate::paths::file_name;
use crate::scan::{Node, TreeEntry};
use crate::text::{display, fmt_size, pad_l, push_decimal};
use crate::tree::{TreeIndex, VisibleRow};
use crate::view::{
    choose_path, deletes, deletion_message, fill, footer_line, has_on, key_is, key_motion,
    move_window, progress, scroll_by, selection_line, shade, toggle, toggles, Key, Rgb, Weighed,
    Window,
};
use crate::walker::EntryKind;
use crate::junk;
use crate::junk_view;
use crate::paths;
use crate::text;
use crate::tree;
use crate::view;

verus! {

/// What the tree tab remembers.
#[derive(Debug)]
pub struct TreeView {
    pub window: Window,
    /// By size, not as the entries lie in the tree.
    pub size_mode: bool,
    pub selected: Vec<bool>,
    pub message: String,
    pub delete_total: usize,
    /// The directories whose children are shown, in the view by size.
    pub expanded: HashSet<usize>,
}

/// The state of the tree tab.
pub struct TreeState {
    pub window: Window,
    pub size_mode: bool,
    pub selected: Seq<bool>,
    pub message: Seq<char>,
    pub delete_total: nat,
    pub expanded: Set<usize>,
}

impl View for TreeView {
    type V = TreeState;

    open spec fn view(&self) -> TreeState {
        TreeState {
            window: self.window,
            size_mode: self.size_mode,
            selected: self.selected@,
            message: self.message@,
            delete_total: self.delete_total as nat,
            expanded: self.expanded@,
        }
    }
}

// ── Keys ────────────────────────────────────────────────────────────────

/// The key that shows what a directory holds.
pub open spec fn is_expand(key: Key) -> bool {
    key is ArrowRight || view::is_char(key, 'l')
}

/// The key that hides what a directory holds.
pub open spec fn is_collapse(key: Key) -> bool {
    key is ArrowLeft || view::is_char(key, 'h')
}

fn expands(key: Key) -> (yes: bool)
    ensures
        yes == is_expand(key),
{
    match key {
        Key::ArrowRight => true,
        _ => key_is(key, 'l'),
    }
}

fn collapses(key: Key) -> (yes: bool)
    ensures
        yes == is_collapse(key),
{
    match key {
        Key::ArrowLeft => true,
        _ => key_is(key, 'h'),
    }
}

/// The paths of the entries.
pub open spec fn entry_paths(tree: Seq<TreeEntry>) -> Seq<Seq<u8>> {
    tree.map_values(|e: TreeEntry| e.path@)
}

/// The directories that are expanded after the row under the cursor was.
pub open spec fn expanded_after(s: TreeState, tree: Seq<TreeEntry>, rows: Seq<VisibleRow>) -> Set<
    usize,
> {
    let at = s.window.cursor as int;
    if s.size_mode && at < rows.len() && tree[rows[at].data_idx as int].kind is Dir {
        s.expanded.insert(rows[at].data_idx)
    } else {
        s.expanded
    }
}

/// The directories that are expanded after the row under the cursor was collapsed: the entry
/// itself, or else the directory under which it is shown.
pub open spec fn collapsed_after(s: TreeState, rows: Seq<VisibleRow>) -> Set<usize> {
    let at = s.window.cursor as int;
    if s.size_mode && at < rows.len() {
        if s.expanded.contains(rows[at].data_idx) {
            s.expanded.remove(rows[at].data_idx)
        } else {
            match rows[at].parent_data_idx {
                Some(parent) => s.expanded.remove(parent),
                None => s.expanded,
            }
        }
    } else {
        s.expanded
    }
}

/// The entry that Space selects: the one in the row under the cursor. In the view by size, where
/// no row is under the cursor, it is the first entry of the tree.
pub open spec fn entry_at_cursor(s: TreeState, rows: Seq<VisibleRow>) -> usize {
    if !s.size_mode {
        s.window.cursor
    } else if s.window.cursor < rows.len() {
        rows[s.window.cursor as int].data_idx
    } else {
        0
    }
}

/// The state after a key; `rows` are the rows of the view by size.
pub open spec fn state_after(
    s: TreeState,
    key: Key,
    page: int,
    tree: Seq<TreeEntry>,
    rows: Seq<VisibleRow>,
) -> TreeState {
    match view::motion_of(key, page) {
        Some(motion) => TreeState {
            window: view::window_after(
                s.window,
                motion,
                page,
                junk_view::last_row(row_total(s.size_mode, rows.len(), tree.len())),
            ),
            ..s
        },
        None => if view::is_char(key, 's') {
            TreeState {
                size_mode: !s.size_mode,
                window: Window { cursor: 0, viewport: 0 },
                ..s
            }
        } else if is_expand(key) {
            TreeState { expanded: expanded_after(s, tree, rows), ..s }
        } else if is_collapse(key) {
            TreeState { expanded: collapsed_after(s, rows), ..s }
        } else if view::is_toggle(key) {
            let entry = entry_at_cursor(s, rows);
            if entry < tree.len() {
                TreeState { selected: view::toggled(s.selected, entry as int), ..s }
            } else {
                s
            }
        } else if view::is_char(key, 'a') {
            TreeState {
                selected: view::uniform(s.selected.len(), !view::any_on(s.selected)),
                ..s
            }
        } else if view::is_delete(key) {
            let n = view::chosen(s.selected, entry_paths(tree)).len();
            TreeState {
                message: view::deletion_text(n),
                delete_total: if n == 0 {
                    s.delete_total
                } else {
                    n
                },
                ..s
            }
        } else {
            s
        },
    }
}

/// The tab as it is first shown: by size, with nothing selected or expanded.
pub open spec fn first_state(len: nat) -> TreeState {
    TreeState {
        window: Window { cursor: 0, viewport: 0 },
        size_mode: true,
        selected: view::uniform(len, false),
        message: seq![],
        delete_total: 0,
        expanded: Set::empty(),
    }
}

/// The state after scrolling by `delta` of `len` rows.
pub open spec fn scrolled_by(s: TreeState, delta: int, page: int, len: nat) -> TreeState {
    TreeState { window: view::scrolled(s.window, delta, page, junk_view::last_row(len)), ..s }
}

/// The state after a click on row `view_idx`, which shows entry `data_idx`.
pub open spec fn clicked(s: TreeState, view_idx: usize, data_idx: usize) -> TreeState {
    TreeState {
        window: Window { cursor: view_idx, ..s.window },
        selected: view::toggled(s.selected, data_idx as int),
        ..s
    }
}

/// The state once `running` of the deletions still go on.
pub open spec fn polled(s: TreeState, running: nat) -> TreeState {
    TreeState {
        message: view::progress_text((s.delete_total - running) as nat, s.delete_total),
        ..s
    }
}

impl TreeView {
    /// The tab as it is first shown: by size, with nothing selected or expanded.
    pub fn new(len: usize) -> (tab: Self)
        ensures
            tab@ == first_state(len as nat),
    {
        let tab = TreeView {
            window: Window { cursor: 0, viewport: 0 },
            size_mode: true,
            selected: fill(len, false),
            message: String::new(),
            delete_total: 0,
            expanded: HashSet::new(),
        };
        assert(tab.message@ =~= seq![]);
        assert(tab.expanded@ =~= Set::empty());
        tab
    }

    fn chosen_paths(&self, tree: &[TreeEntry]) -> (paths: Vec<Vec<u8>>)
        ensures
            junk::paths_of(paths@) == view::chosen(self.selected@, entry_paths(tree@)),
    {
        let ghost all = entry_paths(tree@);
        let mut paths: Vec<Vec<u8>> = Vec::new();
        let mut i: usize = 0;
        assert(junk::paths_of(paths@) =~= view::chosen(self.selected@, all.take(0)));
        while i < tree.len()
            invariant
                i <= tree@.len(),
                all == entry_paths(tree@),
                junk::paths_of(paths@) == view::chosen(self.selected@, all.take(i as int)),
            decreases tree@.len() - i,
        {
            choose_path(
                &mut paths,
                self.selected.as_slice(),
                i,
                tree[i].path.as_slice(),
                Ghost(all),
            );
            i = i + 1;
        }
        assert(all.take(i as int) =~= all);
        paths
    }

    /// Takes a key, and gives the paths that are to be deleted.
    pub fn key(
        &mut self,
        key: Key,
        page: usize,
        tree: &[TreeEntry],
        index: &TreeIndex,
    ) -> (doomed: Vec<Vec<u8>>)
        requires
            page <= i32::MAX,
            index.is_index_of(tree@),
            view::can_take(
                old(self).window,
                key,
                page as int,
                junk_view::last_row(
                    row_total(
                        old(self).size_mode,
                        index.rows(old(self).expanded@).len(),
                        tree@.len(),
                    ),
                ),
            ),
        ensures
            final(self)@ == state_after(
                old(self)@,
                key,
                page as int,
                tree@,
                index.rows(old(self).expanded@),
            ),
            junk::paths_of(doomed@) == junk_view::deleted_by(
                old(self).selected@,
                key,
                entry_paths(tree@),
            ),
    {
        broadcast use vstd::std_specs::hash::group_hash_axioms;

        let none: Vec<Vec<u8>> = Vec::new();
        assert(junk::paths_of(none@) =~= seq![]);
        match key_motion(key, page) {
            Some(motion) => {
                let rows: usize = if self.size_mode {
                    index.visible(tree, &self.expanded).len()
                } else {
                    tree.len()
                };
                let last: usize = rows.saturating_sub(1);
                self.window = move_window(self.window, motion, page, last);
                return none;
            },
            None => {},
        }
        let cursor: usize = self.window.cursor;
        if key_is(key, 's') {
            self.size_mode = !self.size_mode;
            self.window = Window { cursor: 0, viewport: 0 };
        } else if expands(key) {
            if self.size_mode {
                let rows = index.visible(tree, &self.expanded);
                if cursor < rows.len() {
                    let entry: usize = rows[cursor].data_idx;
                    match tree[entry].kind {
                        EntryKind::Dir => {
                            self.expanded.insert(entry);
                        },
                        _ => {},
                    }
                }
            }
        } else if collapses(key) {
            if self.size_mode {
                let rows = index.visible(tree, &self.expanded);
                if cursor < rows.len() {
                    let row = rows[cursor];
                    if self.expanded.contains(&row.data_idx) {
                        self.expanded.remove(&row.data_idx);
                    } else if let Some(parent) = row.parent_data_idx {
                        self.expanded.remove(&parent);
                    }
                }
            }
        } else if toggles(key) {
            let entry: usize = if self.size_mode {
                let rows = index.visible(tree, &self.expanded);
                if cursor < rows.len() {
                    rows[cursor].data_idx
                } else {
                    0
                }
            } else {
                cursor
            };
            if entry < tree.len() {
                toggle(&mut self.selected, entry);
            }
        } else if key_is(key, 'a') {
            let any: bool = has_on(self.selected.as_slice(), true);
            self.selected = fill(self.selected.len(), !any);
        } else if deletes(key) {
            let doomed = self.chosen_paths(tree);
            self.message = deletion_message(doomed.len());
            if doomed.len() > 0 {
                self.delete_total = doomed.len();
            }
            assert(junk::paths_of(doomed@).len() == doomed@.len());
            return doomed;
        }
        none
    }

    /// Scrolls by `delta` of the `len` rows that there are.
    pub fn scroll(&mut self, delta: i32, page: usize, len: usize)
        requires
            view::can_scroll(
                old(self).window,
                delta as int,
                page as int,
                junk_view::last_row(len as nat),
            ),
            delta > i32::MIN,
        ensures
            final(self)@ == scrolled_by(old(self)@, delta as int, page as int, len as nat),
    {
        self.window = scroll_by(delta, self.window, page, len.saturating_sub(1));
    }

    /// A click on row `view_idx`, which shows entry `data_idx`, puts the cursor there and
    /// changes the selection of the entry.
    pub fn click(&mut self, view_idx: usize, data_idx: usize)
        ensures
            final(self)@ == clicked(old(self)@, view_idx, data_idx),
    {
        self.window = Window { cursor: view_idx, viewport: self.window.viewport };
        toggle(&mut self.selected, data_idx);
    }

    /// Takes note that `running` of the deletions still go on.
    pub fn poll(&mut self, running: usize)
        requires
            running <= old(self).delete_total,
        ensures
            final(self)@ == polled(old(self)@, running as nat),
    {
        self.message = progress(running, self.delete_total);
    }
}

/// `G` and End go to the last row, whether directories are expanded or not.
pub proof fn end_is_the_last_row(
    s: TreeState,
    key: Key,
    page: int,
    tree: Seq<TreeEntry>,
    rows: Seq<VisibleRow>,
)
    requires
        0 < page <= i32::MAX,
        key is End || view::is_char(key, 'G'),
        0 < row_total(s.size_mode, rows.len(), tree.len()) <= usize::MAX,
    ensures
        state_after(s, key, page, tree, rows).window.cursor == row_total(
            s.size_mode,
            rows.len(),
            tree.len(),
        ) - 1,
{
}

/// Expanding the directory under the cursor and collapsing it again gives back what was
/// expanded before, where no row further up shows the same directory.
pub proof fn collapsing_undoes_expanding(s: TreeState, tree: Seq<TreeEntry>, index: TreeIndex)
    requires
        s.size_mode,
        s.window.cursor < index.rows(s.expanded).len(),
        tree[index.rows(s.expanded)[s.window.cursor as int].data_idx as int].kind is Dir,
        !s.expanded.contains(index.rows(s.expanded)[s.window.cursor as int].data_idx),
        tree::none_before(
            index.rows(s.expanded),
            index.rows(s.expanded)[s.window.cursor as int].data_idx,
            s.window.cursor as int,
        ),
    ensures
        ({
            let expanded = expanded_after(s, tree, index.rows(s.expanded));
            collapsed_after(TreeState { expanded, ..s }, index.rows(expanded)) == s.expanded
        }),
{
    let at = s.window.cursor as int;
    let e = index.rows(s.expanded)[at].data_idx;
    tree::expanding_keeps_the_rows_above(
        tree::lists(index.children@, index.by_size@.len()),
        s.expanded,
        index.by_size@,
        e,
        at,
    );
    assert(s.expanded.insert(e).remove(e) =~= s.expanded);
}

// ── Sizes ───────────────────────────────────────────────────────────────

impl Weighed for TreeEntry {
    open spec fn weight(self) -> nat {
        self.size as nat
    }

    fn size_of(&self) -> (size: u64) {
        self.size
    }
}

// ── What the tab shows ──────────────────────────────────────────────────

/// How many rows there are, and how they are ordered.
pub open spec fn entries_text(rows: nat, size_mode: bool) -> Seq<char> {
    text::decimal(rows) + " entries  ["@ + (if size_mode {
        "BY SIZE"@
    } else {
        "TREE"@
    }) + "]"@ + (if size_mode {
        "  l/→:expand h/←:collapse"@
    } else {
        ""@
    })
}

/// The header: how many rows there are, how many entries are selected and what those take.
pub fn header(rows: usize, size_mode: bool, count: usize, selected_bytes: u64) -> (lines: (
    String,
    String,
))
    ensures
        lines.0@ == entries_text(rows as nat, size_mode),
        lines.1@ == view::selection_text(count as nat, selected_bytes as nat),
{
    let mut entries = String::new();
    push_decimal(&mut entries, rows as u64);
    assert(entries@ =~= text::decimal(rows as nat));
    entries.append(" entries  [");
    entries.append(
        if size_mode {
            "BY SIZE"
        } else {
            "TREE"
        },
    );
    entries.append("]");
    entries.append(
        if size_mode {
            "  l/→:expand h/←:collapse"
        } else {
            ""
        },
    );
    (entries, selection_line(count, selected_bytes))
}

/// The footer: the keys, the position and the message.
pub fn footer(tab: &TreeView, rows: usize) -> (line: String)
    requires
        tab.window.cursor < usize::MAX,
    ensures
        line@ == view::footer_text(
            " j/k ↑↓ l/h:expand/collapse space a d s:sort  "@,
            tab.window.cursor as nat,
            rows as nat,
            tab.message@,
        ),
{
    footer_line(
        " j/k ↑↓ l/h:expand/collapse space a d s:sort  ",
        tab.window.cursor,
        rows,
        tab.message.as_str(),
    )
}

/// A row of the tree tab.
#[derive(Debug)]
pub struct TreeRow {
    pub data_idx: usize,
    pub background: Rgb,
    pub color: Rgb,
    pub checkbox: &'static str,
    pub size: String,
    pub label: String,
}

/// The texts and colours of a row.
pub struct TreeRowFacts {
    pub data_idx: usize,
    pub background: Rgb,
    pub color: Rgb,
    pub checkbox: Seq<char>,
    pub size: Seq<char>,
    pub label: Seq<char>,
}

impl View for TreeRow {
    type V = TreeRowFacts;

    open spec fn view(&self) -> TreeRowFacts {
        TreeRowFacts {
            data_idx: self.data_idx,
            background: self.background,
            color: self.color,
            checkbox: self.checkbox@,
            size: self.size@,
            label: self.label@,
        }
    }
}

/// The colour of an entry: junk stands out, the others go by their kind.
pub open spec fn color_of(node: Node) -> Rgb {
    if node.is_junk {
        view::rgb_of(255, 100, 100)
    } else {
        match node.kind {
            EntryKind::Dir => view::rgb_of(100, 170, 255),
            EntryKind::Symlink => view::rgb_of(200, 150, 255),
            _ => view::rgb_of(180, 180, 190),
        }
    }
}

fn color(entry: &TreeEntry) -> (color: Rgb)
    ensures
        color == color_of(entry@),
{
    if entry.is_junk {
        Rgb { r: 255, g: 100, b: 100 }
    } else {
        match entry.kind {
            EntryKind::Dir => Rgb { r: 100, g: 170, b: 255 },
            EntryKind::Symlink => Rgb { r: 200, g: 150, b: 255 },
            _ => Rgb { r: 180, g: 180, b: 190 },
        }
    }
}

pub open spec fn icon_of(kind: EntryKind) -> Seq<char> {
    match kind {
        EntryKind::Dir => "📁 "@,
        EntryKind::Symlink => "🔗 "@,
        _ => "   "@,
    }
}

fn icon(kind: EntryKind) -> (icon: &'static str)
    ensures
        icon@ == icon_of(kind),
{
    match kind {
        EntryKind::Dir => "📁 ",
        EntryKind::Symlink => "🔗 ",
        _ => "   ",
    }
}

/// The last component of a path as text.
pub open spec fn name_text(path: Seq<u8>) -> Seq<char> {
    match paths::file_name_of(paths::components(path)) {
        Some(name) => text::lossy_text(name),
        None => seq![],
    }
}

fn name(path: &[u8]) -> (name: String)
    ensures
        name@ == name_text(path@),
{
    match file_name(path) {
        Some(bytes) => display(bytes.as_slice()),
        None => {
            let name = String::new();
            assert(name@ =~= seq![]);
            name
        },
    }
}

/// The mark in front of an entry in the view by size: whether a directory is expanded.
pub open spec fn marker_of(kind: EntryKind, expanded: bool) -> Seq<char> {
    if kind is Dir {
        if expanded {
            "▼ "@
        } else {
            "▶ "@
        }
    } else {
        "  "@
    }
}

fn marker(kind: EntryKind, expanded: bool) -> (marker: &'static str)
    ensures
        marker@ == marker_of(kind, expanded),
{
    match kind {
        EntryKind::Dir => {
            if expanded {
                "▼ "
            } else {
                "▶ "
            }
        },
        _ => "  ",
    }
}

/// Two blanks for each step.
pub open spec fn indentation(steps: int) -> Seq<char> {
    text::run_of(' ', 2 * steps)
}

fn push_indentation(out: &mut String, steps: usize)
    ensures
        final(out)@ == old(out)@ + indentation(steps as int),
{
    proof {
        reveal_strlit("  ");
    }
    let ghost before = out@;
    let mut i: usize = 0;
    assert(out@ =~= before + indentation(0));
    while i < steps
        invariant
            i <= steps,
            "  "@ == seq![' ', ' '],
            out@ == before + indentation(i as int),
        decreases steps - i,
    {
        out.append("  ");
        i = i + 1;
        assert(out@ =~= before + indentation(i as int));
    }
}

/// The label of an entry in the view by size: the whole path where it stands on its own, the
/// name where it stands below a directory.
pub open spec fn size_label(node: Node, indent: int, expanded: bool) -> Seq<char> {
    if indent == 0 {
        " "@ + marker_of(node.kind, expanded) + text::lossy_text(node.path)
    } else {
        " "@ + indentation(indent) + marker_of(node.kind, expanded) + icon_of(node.kind)
            + name_text(node.path)
    }
}

fn label_by_size(entry: &TreeEntry, indent: usize, expanded: bool) -> (label: String)
    ensures
        label@ == size_label(entry@, indent as int, expanded),
{
    let mut label: String = " ".to_owned();
    if indent == 0 {
        label.append(marker(entry.kind, expanded));
        label.append(display(entry.path.as_slice()).as_str());
    } else {
        push_indentation(&mut label, indent);
        label.append(marker(entry.kind, expanded));
        label.append(icon(entry.kind));
        label.append(name(entry.path.as_slice()).as_str());
    }
    label
}

/// The label of an entry in the view as a tree.
pub open spec fn tree_label(node: Node) -> Seq<char> {
    indentation(node.depth as int) + icon_of(node.kind) + name_text(node.path)
}

fn label_in_tree(entry: &TreeEntry) -> (label: String)
    ensures
        label@ == tree_label(entry@),
{
    let mut label = String::new();
    push_indentation(&mut label, entry.depth);
    assert(label@ =~= indentation(entry.depth as int));
    label.append(icon(entry.kind));
    label.append(name(entry.path.as_slice()).as_str());
    label
}

/// The size column: blank where there is no size.
pub open spec fn size_column(size: u64) -> Seq<char> {
    text::padded_left(
        if size > 0 {
            text::size_text(size as nat)
        } else {
            seq![]
        },
        10,
    )
}

fn size_cell(size: u64) -> (cell: String)
    ensures
        cell@ == size_column(size),
{
    if size > 0 {
        pad_l(fmt_size(size).as_str(), 10)
    } else {
        let blank = String::new();
        assert(blank@ =~= seq![]);
        pad_l(blank.as_str(), 10)
    }
}

/// The entry that row `view_idx` shows, and how far it is indented.
pub open spec fn shown_at(tab: TreeState, rows: Seq<VisibleRow>, view_idx: int) -> (usize, usize) {
    if tab.size_mode {
        (rows[view_idx].data_idx, rows[view_idx].indent)
    } else {
        (view_idx as usize, 0)
    }
}

/// Row `view_idx` of the tab.
pub open spec fn row_of(
    tab: TreeState,
    tree: Seq<TreeEntry>,
    rows: Seq<VisibleRow>,
    view_idx: int,
) -> TreeRowFacts {
    let (entry, indent) = shown_at(tab, rows, view_idx);
    let node = tree[entry as int]@;
    TreeRowFacts {
        data_idx: entry,
        background: view::shade_of(view_idx, tab.window.cursor as int),
        color: color_of(node),
        checkbox: if view::is_on(tab.selected, entry as int) {
            " [x] "@
        } else {
            " [ ] "@
        },
        size: size_column(node.size),
        label: if tab.size_mode {
            size_label(node, indent as int, tab.expanded.contains(entry))
        } else {
            tree_label(node)
        },
    }
}

fn row(
    tab: &TreeView,
    tree: &[TreeEntry],
    visible: &[VisibleRow],
    view_idx: usize,
) -> (row: TreeRow)
    requires
        tab.size_mode ==> view_idx < visible@.len() && visible@[view_idx as int].data_idx
            < tree@.len(),
        !tab.size_mode ==> view_idx < tree@.len(),
    ensures
        row@ == row_of(tab@, tree@, visible@, view_idx as int),
{
    broadcast use vstd::std_specs::hash::group_hash_axioms;

    let data_idx: usize = if tab.size_mode {
        visible[view_idx].data_idx
    } else {
        view_idx
    };
    let entry = &tree[data_idx];
    let label = if tab.size_mode {
        label_by_size(entry, visible[view_idx].indent, tab.expanded.contains(&data_idx))
    } else {
        label_in_tree(entry)
    };
    TreeRow {
        data_idx,
        background: shade(view_idx, tab.window.cursor),
        color: color(entry),
        checkbox: if data_idx < tab.selected.len() && tab.selected[data_idx] {
            " [x] "
        } else {
            " [ ] "
        },
        size: size_cell(entry.size),
        label,
    }
}

/// The rows of the view by size, where that is the view.
pub fn visible_rows(tab: &TreeView, tree: &[TreeEntry], index: &TreeIndex) -> (rows: Vec<
    VisibleRow,
>)
    requires
        index.is_index_of(tree@),
    ensures
        tab.size_mode ==> rows@ == index.rows(tab.expanded@),
        !tab.size_mode ==> rows@.len() == 0,
        forall|i: int| 0 <= i < rows@.len() ==> (#[trigger] rows@[i]).data_idx < tree@.len(),
{
    if tab.size_mode {
        index.visible(tree, &tab.expanded)
    } else {
        Vec::new()
    }
}

/// How many rows there are to scroll through.
pub open spec fn row_total(size_mode: bool, visible: nat, entries: nat) -> nat {
    if size_mode {
        visible
    } else {
        entries
    }
}

pub fn row_count(tab: &TreeView, tree: &[TreeEntry], visible: &[VisibleRow]) -> (count: usize)
    ensures
        count == row_total(tab.size_mode, visible@.len(), tree@.len()),
{
    if tab.size_mode {
        visible.len()
    } else {
        tree.len()
    }
}

/// What the rows say that the tab shows.
pub open spec fn shown(
    tab: TreeState,
    tree: Seq<TreeEntry>,
    visible: Seq<VisibleRow>,
    page: int,
) -> Seq<TreeRowFacts> {
    let first = tab.window.viewport as int;
    Seq::new(
        junk_view::shown_rows(
            first,
            page,
            row_total(tab.size_mode, visible.len(), tree.len()) as int,
        ),
        |i: int| row_of(tab, tree, visible, first + i),
    )
}

/// The rows that the tab shows; `visible` are those of the view by size.
pub fn rows(
    tab: &TreeView,
    tree: &[TreeEntry],
    visible: &[VisibleRow],
    page: usize,
) -> (rows: Vec<TreeRow>)
    requires
        forall|i: int|
            0 <= i < visible@.len() ==> (#[trigger] visible@[i]).data_idx < tree@.len(),
    ensures
        rows@.map_values(|row: TreeRow| row@) == shown(tab@, tree@, visible@, page as int),
        rows@.len() == junk_view::shown_rows(
            tab.window.viewport as int,
            page as int,
            row_total(tab.size_mode, visible@.len(), tree@.len()) as int,
        ),
        forall|i: int|
            0 <= i < rows@.len() ==> (#[trigger] rows@[i])@ == row_of(
                tab@,
                tree@,
                visible@,
                tab.window.viewport + i,
            ),
{
    let mut rows: Vec<TreeRow> = Vec::new();
    let total: usize = row_count(tab, tree, visible);
    let start: usize = tab.window.viewport;
    if start >= total {
        assert(rows@.map_values(|row: TreeRow| row@) =~= shown(
            tab@,
            tree@,
            visible@,
            page as int,
        ));
        return rows;
    }
    let end: usize = if page < total - start {
        start + page
    } else {
        total
    };
    let mut view_idx: usize = start;
    while view_idx < end
        invariant
            start == tab.window.viewport,
            start <= view_idx <= end <= total,
            total == row_total(tab.size_mode, visible@.len(), tree@.len()),
            forall|i: int|
                0 <= i < visible@.len() ==> (#[trigger] visible@[i]).data_idx < tree@.len(),
            rows@.len() == view_idx - start,
            forall|i: int|
                0 <= i < rows@.len() ==> (#[trigger] rows@[i])@ == row_of(
                    tab@,
                    tree@,
                    visible@,
                    start + i,
                ),
        decreases end - view_idx,
    {
        rows.push(row(tab, tree, visible, view_idx));
        view_idx = view_idx + 1;
    }
    assert(rows@.map_values(|row: TreeRow| row@) =~= shown(tab@, tree@, visible@, page as int));
    rows
}

} // verus!
