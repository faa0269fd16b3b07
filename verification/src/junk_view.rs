//! The junk tab: the junk directories that a scan has found, and which of them to delete.

use vstd::prelude::*;

use crate::junk::JunkHit;
use crate::order::{sort, Rank};
use crate::text::{display, fmt_size, pad_l, pad_r, push_decimal, push_run};
use crate::view::{
    choose_path, deletes, deletion_message, fill, footer_line, has_on, key_is, key_motion,
    move_window, progress, scroll_by, selection_line, shade, toggle, toggles, Key, Rgb, Weighed,
    Window,
};
use crate::junk;
use crate::order;
use crate::sums;
use crate::text;
use crate::view;

verus! {

/// The biggest hits first.
pub struct HitsBySize;

impl Rank<JunkHit> for HitsBySize {
    open spec fn in_order(a: JunkHit, b: JunkHit) -> bool {
        a.size_bytes >= b.size_bytes
    }

    proof fn lemma_in_order(a: JunkHit, b: JunkHit, c: JunkHit) {
    }

    fn need_not_follow(a: &JunkHit, b: &JunkHit) -> (r: bool) {
        a.size_bytes >= b.size_bytes
    }
}

/// The hits, the biggest first, hits of one size in their old order.
pub fn sort_hits(hits: Vec<JunkHit>) -> (sorted: Vec<JunkHit>)
    ensures
        order::is_sorted_from::<JunkHit, HitsBySize>(hits@, sorted@),
{
    sort::<JunkHit, HitsBySize>(hits)
}

// ── Sums ────────────────────────────────────────────────────────────────

pub open spec fn hit_size() -> spec_fn(JunkHit) -> nat {
    |h: JunkHit| h.size_bytes as nat
}

/// What all hits take.
pub open spec fn total_size(hits: Seq<JunkHit>) -> nat {
    sums::total(hits, hit_size())
}

impl Weighed for JunkHit {
    open spec fn weight(self) -> nat {
        self.size_bytes as nat
    }

    fn size_of(&self) -> (size: u64) {
        self.size_bytes
    }
}

/// What all hits take, if the number fits.
pub fn sum_sizes(hits: &[JunkHit]) -> (sum: Option<u64>)
    ensures
        sum == (if total_size(hits@) <= u64::MAX {
            Some(total_size(hits@) as u64)
        } else {
            None
        }),
{
    let mut sum: u64 = 0;
    let mut i: usize = 0;
    while i < hits.len()
        invariant
            i <= hits@.len(),
            sum == total_size(hits@.take(i as int)),
        decreases hits@.len() - i,
    {
        proof {
            sums::lemma_total_step(hits@, i as int, hit_size());
        }
        match sum.checked_add(hits[i].size_bytes) {
            Some(next) => {
                sum = next;
            },
            None => {
                return None;
            },
        }
        i = i + 1;
    }
    assert(hits@.take(i as int) =~= hits@);
    Some(sum)
}

/// No selection takes more than all hits.
pub proof fn selection_is_part_of_all(hits: Seq<JunkHit>, selected: Seq<bool>)
    ensures
        view::selected_size(hits, selected) <= total_size(hits),
    decreases hits.len(),
{
    if hits.len() > 0 {
        selection_is_part_of_all(hits.drop_last(), selected);
    }
}

/// Selecting everything takes as much as all hits.
pub proof fn full_selection_is_all(hits: Seq<JunkHit>)
    ensures
        view::selected_size(hits, view::uniform(hits.len(), true)) == total_size(hits),
{
    lemma_full_prefix(hits, view::uniform(hits.len(), true));
}

proof fn lemma_full_prefix(hits: Seq<JunkHit>, selected: Seq<bool>)
    requires
        hits.len() <= selected.len(),
        view::all_on(selected),
    ensures
        view::selected_size(hits, selected) == total_size(hits),
    decreases hits.len(),
{
    if hits.len() > 0 {
        assert(selected[hits.len() - 1]);
        lemma_full_prefix(hits.drop_last(), selected);
    }
}

// ── The state of the tab ────────────────────────────────────────────────

/// What the junk tab remembers.
#[derive(Debug)]
pub struct JunkView {
    pub window: Window,
    pub selected: Vec<bool>,
    pub message: String,
    pub delete_total: usize,
}

/// The state of the junk tab.
pub struct JunkState {
    pub window: Window,
    pub selected: Seq<bool>,
    pub message: Seq<char>,
    pub delete_total: nat,
}

impl View for JunkView {
    type V = JunkState;

    open spec fn view(&self) -> JunkState {
        JunkState {
            window: self.window,
            selected: self.selected@,
            message: self.message@,
            delete_total: self.delete_total as nat,
        }
    }
}

/// The paths of the hits.
pub open spec fn hit_paths(hits: Seq<JunkHit>) -> Seq<Seq<u8>> {
    hits.map_values(|h: JunkHit| h.path@)
}

/// The last row of a list.
pub open spec fn last_row(len: nat) -> int {
    if len == 0 {
        0
    } else {
        len - 1
    }
}

/// The state after a key; `paths` are those of the hits.
pub open spec fn state_after(
    s: JunkState,
    key: Key,
    page: int,
    paths: Seq<Seq<u8>>,
) -> JunkState {
    match view::motion_of(key, page) {
        Some(motion) => JunkState {
            window: view::window_after(s.window, motion, page, last_row(paths.len())),
            ..s
        },
        None => if view::is_toggle(key) {
            if s.window.cursor < paths.len() {
                JunkState { selected: view::toggled(s.selected, s.window.cursor as int), ..s }
            } else {
                s
            }
        } else if view::is_char(key, 'a') {
            JunkState {
                selected: view::uniform(s.selected.len(), !view::all_on(s.selected)),
                ..s
            }
        } else if view::is_delete(key) {
            let n = view::chosen(s.selected, paths).len();
            JunkState {
                message: view::deletion_text(n),
                delete_total: if n == 0 {
                    s.delete_total
                } else {
                    n
                },
                ..s
            }
        } else {
            s
        },
    }
}

/// What a key deletes: the selected paths, if it is the key for that.
pub open spec fn deleted_by(selected: Seq<bool>, key: Key, paths: Seq<Seq<u8>>) -> Seq<Seq<u8>> {
    if view::is_delete(key) {
        view::chosen(selected, paths)
    } else {
        seq![]
    }
}

/// The tab as it is first shown: everything is selected.
pub open spec fn first_state(len: nat) -> JunkState {
    JunkState {
        window: Window { cursor: 0, viewport: 0 },
        selected: view::uniform(len, true),
        message: seq![],
        delete_total: 0,
    }
}

/// The state after scrolling by `delta` of `len` rows.
pub open spec fn scrolled_by(s: JunkState, delta: int, page: int, len: nat) -> JunkState {
    JunkState { window: view::scrolled(s.window, delta, page, last_row(len)), ..s }
}

/// The state after a click on row `index`.
pub open spec fn clicked(s: JunkState, index: usize) -> JunkState {
    JunkState {
        window: Window { cursor: index, ..s.window },
        selected: view::toggled(s.selected, index as int),
        ..s
    }
}

/// The state once `running` of the deletions still go on.
pub open spec fn polled(s: JunkState, running: nat) -> JunkState {
    JunkState {
        message: view::progress_text((s.delete_total - running) as nat, s.delete_total),
        ..s
    }
}

impl JunkView {
    /// The tab as it is first shown: everything is selected.
    pub fn new(len: usize) -> (tab: Self)
        ensures
            tab@ == first_state(len as nat),
    {
        let tab = JunkView {
            window: Window { cursor: 0, viewport: 0 },
            selected: fill(len, true),
            message: String::new(),
            delete_total: 0,
        };
        assert(tab.message@ =~= seq![]);
        tab
    }

    fn chosen_paths(&self, hits: &[JunkHit]) -> (paths: Vec<Vec<u8>>)
        ensures
            junk::paths_of(paths@) == view::chosen(self.selected@, hit_paths(hits@)),
    {
        let ghost all = hit_paths(hits@);
        let mut paths: Vec<Vec<u8>> = Vec::new();
        let mut i: usize = 0;
        assert(junk::paths_of(paths@) =~= view::chosen(self.selected@, all.take(0)));
        while i < hits.len()
            invariant
                i <= hits@.len(),
                all == hit_paths(hits@),
                junk::paths_of(paths@) == view::chosen(self.selected@, all.take(i as int)),
            decreases hits@.len() - i,
        {
            choose_path(
                &mut paths,
                self.selected.as_slice(),
                i,
                hits[i].path.as_slice(),
                Ghost(all),
            );
            i = i + 1;
        }
        assert(all.take(i as int) =~= all);
        paths
    }

    /// Takes a key, and gives the paths that are to be deleted.
    pub fn key(&mut self, key: Key, page: usize, hits: &[JunkHit]) -> (doomed: Vec<Vec<u8>>)
        requires
            page <= i32::MAX,
            view::can_take(old(self).window, key, page as int, last_row(hits@.len())),
        ensures
            final(self)@ == state_after(old(self)@, key, page as int, hit_paths(hits@)),
            junk::paths_of(doomed@) == deleted_by(
                old(self).selected@,
                key,
                hit_paths(hits@),
            ),
    {
        let none: Vec<Vec<u8>> = Vec::new();
        assert(junk::paths_of(none@) =~= seq![]);
        match key_motion(key, page) {
            Some(motion) => {
                let last: usize = hits.len().saturating_sub(1);
                self.window = move_window(self.window, motion, page, last);
                return none;
            },
            None => {},
        }
        if toggles(key) {
            if self.window.cursor < hits.len() {
                toggle(&mut self.selected, self.window.cursor);
            }
        } else if key_is(key, 'a') {
            let all: bool = !has_on(self.selected.as_slice(), false);
            self.selected = fill(self.selected.len(), !all);
        } else if deletes(key) {
            let doomed = self.chosen_paths(hits);
            self.message = deletion_message(doomed.len());
            if doomed.len() > 0 {
                self.delete_total = doomed.len();
            }
            assert(junk::paths_of(doomed@).len() == doomed@.len());
            return doomed;
        }
        none
    }

    /// Scrolls by `delta` rows.
    pub fn scroll(&mut self, delta: i32, page: usize, len: usize)
        requires
            view::can_scroll(
                old(self).window,
                delta as int,
                page as int,
                last_row(len as nat),
            ),
            delta > i32::MIN,
        ensures
            final(self)@ == scrolled_by(old(self)@, delta as int, page as int, len as nat),
    {
        self.window = scroll_by(delta, self.window, page, len.saturating_sub(1));
    }

    /// A click on a row puts the cursor there and changes its selection.
    pub fn click(&mut self, index: usize)
        ensures
            final(self)@ == clicked(old(self)@, index),
    {
        self.window = Window { cursor: index, viewport: self.window.viewport };
        toggle(&mut self.selected, index);
    }

    /// Takes note that `running` of the deletions still go on.
    pub fn poll(&mut self, running: usize)
        requires
            running <= old(self).delete_total,
        ensures
            final(self)@ == polled(old(self)@, running as nat),
    {
        self.message = progress(running, self.delete_total);
    }
}

/// Pressing the selection key twice changes nothing.
pub proof fn toggling_twice_changes_nothing(s: JunkState, page: int, paths: Seq<Seq<u8>>, key: Key)
    requires
        view::is_toggle(key),
    ensures
        state_after(state_after(s, key, page, paths), key, page, paths) == s,
{
    let once = state_after(s, key, page, paths);
    let twice = state_after(once, key, page, paths);
    assert(twice.selected =~= s.selected);
}

/// A path is deleted only if it is a selected hit.
pub proof fn only_selected_is_deleted(selected: Seq<bool>, paths: Seq<Seq<u8>>, path: Seq<u8>)
    ensures
        view::chosen(selected, paths).contains(path) <==> exists|i: int|
            0 <= i < paths.len() && #[trigger] paths[i] == path && view::is_on(selected, i),
    decreases paths.len(),
{
    if paths.len() > 0 {
        let n = paths.len() - 1;
        let before = view::chosen(selected, paths.drop_last());
        only_selected_is_deleted(selected, paths.drop_last(), path);
        let all = view::chosen(selected, paths);
        if view::is_on(selected, n) {
            assert(all[before.len() as int] == paths[n]);
        }
        if before.contains(path) {
            let k = choose|k: int| 0 <= k < before.len() && before[k] == path;
            assert(all[k] == path);
            let i = choose|i: int|
                0 <= i < n && #[trigger] paths.drop_last()[i] == path && view::is_on(selected, i);
            assert(paths[i] == path);
        }
        if all.contains(path) {
            let k = choose|k: int| 0 <= k < all.len() && all[k] == path;
            if k < before.len() {
                assert(before[k] == path);
            } else {
                assert(paths[n] == path);
            }
        }
        if exists|i: int|
            0 <= i < paths.len() && #[trigger] paths[i] == path && view::is_on(selected, i) {
            let i = choose|i: int|
                0 <= i < paths.len() && #[trigger] paths[i] == path && view::is_on(selected, i);
            if i < n {
                assert(paths.drop_last()[i] == path);
            }
        }
    }
}

// ── What the tab shows ──────────────────────────────────────────────────

/// How many hits there are and what they take.
pub open spec fn items_text(len: nat, bytes: nat) -> Seq<char> {
    text::decimal(len) + " items    "@ + text::size_text(bytes)
}

/// The header: how many hits there are and what they take, how many are selected and what
/// those take.
pub fn header(len: usize, bytes: u64, count: usize, selected_bytes: u64) -> (lines: (
    String,
    String,
))
    ensures
        lines.0@ == items_text(len as nat, bytes as nat),
        lines.1@ == view::selection_text(count as nat, selected_bytes as nat),
{
    let mut items = String::new();
    push_decimal(&mut items, len as u64);
    assert(items@ =~= text::decimal(len as nat));
    items.append(" items    ");
    items.append(fmt_size(bytes).as_str());
    (items, selection_line(count, selected_bytes))
}

/// The footer: the keys, the position and the message.
pub fn footer(tab: &JunkView, len: usize) -> (line: String)
    requires
        tab.window.cursor < usize::MAX,
    ensures
        line@ == view::footer_text(
            " j/k ↑↓ PgUp/Dn g/G space a d  "@,
            tab.window.cursor as nat,
            len as nat,
            tab.message@,
        ),
{
    footer_line(
        " j/k ↑↓ PgUp/Dn g/G space a d  ",
        tab.window.cursor,
        len,
        tab.message.as_str(),
    )
}

/// A row of the junk tab.
#[derive(Debug)]
pub struct JunkRow {
    pub index: usize,
    pub background: Rgb,
    pub checkbox: &'static str,
    pub ecosystem: String,
    pub size: String,
    pub path: String,
}

/// The texts and colours of a row.
pub struct JunkRowFacts {
    pub index: usize,
    pub background: Rgb,
    pub checkbox: Seq<char>,
    pub ecosystem: Seq<char>,
    pub size: Seq<char>,
    pub path: Seq<char>,
}

impl View for JunkRow {
    type V = JunkRowFacts;

    open spec fn view(&self) -> JunkRowFacts {
        JunkRowFacts {
            index: self.index,
            background: self.background,
            checkbox: self.checkbox@,
            ecosystem: self.ecosystem@,
            size: self.size@,
            path: self.path@,
        }
    }
}

/// The row of hit `index`.
pub open spec fn row_of(tab: JunkState, hit: junk::HitFacts, index: usize) -> JunkRowFacts {
    JunkRowFacts {
        index,
        background: view::shade_of(index as int, tab.window.cursor as int),
        checkbox: if view::is_on(tab.selected, index as int) {
            " [x] "@
        } else {
            " [ ] "@
        },
        ecosystem: text::padded_right(hit.ecosystem, 24),
        size: text::padded_left(text::size_text(hit.size_bytes as nat), 10),
        path: " "@ + text::lossy_text(hit.path),
    }
}

fn row(tab: &JunkView, hit: &JunkHit, index: usize) -> (row: JunkRow)
    ensures
        row@ == row_of(tab@, hit@, index),
{
    let mut path: String = " ".to_owned();
    path.append(display(hit.path.as_slice()).as_str());
    JunkRow {
        index,
        background: shade(index, tab.window.cursor),
        checkbox: if index < tab.selected.len() && tab.selected[index] {
            " [x] "
        } else {
            " [ ] "
        },
        ecosystem: pad_r(hit.ecosystem, 24),
        size: pad_l(fmt_size(hit.size_bytes).as_str(), 10),
        path,
    }
}

/// How many rows a window shows of a list.
pub open spec fn shown_rows(viewport: int, page: int, len: int) -> nat {
    if viewport >= len {
        0
    } else if viewport + page <= len {
        page as nat
    } else {
        (len - viewport) as nat
    }
}

/// What the rows say that the tab shows.
pub open spec fn shown(tab: JunkState, hits: Seq<JunkHit>, page: int) -> Seq<JunkRowFacts> {
    let first = tab.window.viewport as int;
    Seq::new(
        shown_rows(first, page, hits.len() as int),
        |i: int| row_of(tab, hits[first + i]@, (first + i) as usize),
    )
}

/// The rows that the tab shows.
pub fn rows(tab: &JunkView, hits: &[JunkHit], page: usize) -> (rows: Vec<JunkRow>)
    ensures
        rows@.map_values(|row: JunkRow| row@) == shown(tab@, hits@, page as int),
        rows@.len() == shown_rows(tab.window.viewport as int, page as int, hits@.len() as int),
        forall|i: int|
            0 <= i < rows@.len() ==> (#[trigger] rows@[i])@ == row_of(
                tab@,
                hits@[tab.window.viewport + i]@,
                (tab.window.viewport + i) as usize,
            ),
{
    let mut rows: Vec<JunkRow> = Vec::new();
    let start: usize = tab.window.viewport;
    if start >= hits.len() {
        assert(rows@.map_values(|row: JunkRow| row@) =~= shown(tab@, hits@, page as int));
        return rows;
    }
    let end: usize = if page < hits.len() - start {
        start + page
    } else {
        hits.len()
    };
    let mut index: usize = start;
    while index < end
        invariant
            start == tab.window.viewport,
            start <= index <= end <= hits@.len(),
            rows@.len() == index - start,
            forall|i: int|
                0 <= i < rows@.len() ==> (#[trigger] rows@[i])@ == row_of(
                    tab@,
                    hits@[start + i]@,
                    (start + i) as usize,
                ),
        decreases end - index,
    {
        rows.push(row(tab, &hits[index], index));
        index = index + 1;
    }
    assert(rows@.map_values(|row: JunkRow| row@) =~= shown(tab@, hits@, page as int));
    rows
}

// ── Without a terminal ──────────────────────────────────────────────────

/// A line of seventy dashes, indented.
pub open spec fn ruler() -> Seq<char> {
    "  "@ + text::run_of('─', 70)
}

/// The line of one hit.
pub open spec fn hit_line(hit: junk::HitFacts) -> Seq<char> {
    "  "@ + text::padded_left(text::size_text(hit.size_bytes as nat), 10) + "  "@
        + text::padded_right(hit.ecosystem, 22) + " "@ + text::lossy_text(hit.path) + "\n"@
}

pub open spec fn hit_lines(hits: Seq<JunkHit>) -> Seq<char>
    decreases hits.len(),
{
    if hits.len() == 0 {
        seq![]
    } else {
        hit_lines(hits.drop_last()) + hit_line(hits.last()@)
    }
}

/// The report that is printed where there is no terminal.
pub open spec fn report(hits: Seq<JunkHit>, total: nat) -> Seq<char> {
    "\n  kosu junk finder — "@ + text::decimal(hits.len()) + " items — "@ + text::size_text(total)
        + "\n"@ + ruler() + "\n"@ + hit_lines(hits) + ruler() + "\n  Total: "@ + text::size_text(
        total,
    ) + "\n\n"@
}

fn push_ruler(out: &mut String)
    ensures
        final(out)@ == old(out)@ + ruler(),
{
    proof {
        reveal_strlit("─");
    }
    out.append("  ");
    push_run(out, "─", 70);
    assert(out@ =~= old(out)@ + ruler());
}

fn push_hit(out: &mut String, hit: &JunkHit)
    ensures
        final(out)@ == old(out)@ + hit_line(hit@),
{
    out.append("  ");
    out.append(pad_l(fmt_size(hit.size_bytes).as_str(), 10).as_str());
    out.append("  ");
    out.append(pad_r(hit.ecosystem, 22).as_str());
    out.append(" ");
    out.append(display(hit.path.as_slice()).as_str());
    out.append("\n");
    assert(out@ =~= old(out)@ + hit_line(hit@));
}

/// The report that is printed where there is no terminal.
pub fn headless_output(hits: &[JunkHit]) -> (out: String)
    requires
        total_size(hits@) <= u64::MAX,
    ensures
        out@ == report(hits@, total_size(hits@)),
{
    let total: u64 = match sum_sizes(hits) {
        Some(sum) => sum,
        None => 0,
    };
    let mut out: String = "\n  kosu junk finder — ".to_owned();
    push_decimal(&mut out, hits.len() as u64);
    out.append(" items — ");
    out.append(fmt_size(total).as_str());
    out.append("\n");
    push_ruler(&mut out);
    out.append("\n");
    let ghost head = out@;
    let mut i: usize = 0;
    assert(head + hit_lines(hits@.take(0)) =~= head);
    while i < hits.len()
        invariant
            i <= hits@.len(),
            out@ == head + hit_lines(hits@.take(i as int)),
        decreases hits@.len() - i,
    {
        proof {
            assert(hits@.take(i + 1).drop_last() =~= hits@.take(i as int));
            assert(head + hit_lines(hits@.take(i as int)) + hit_line(hits@[i as int]@) =~= head
                + hit_lines(hits@.take(i + 1)));
        }
        push_hit(&mut out, &hits[i]);
        i = i + 1;
    }
    assert(hits@.take(i as int) =~= hits@);
    push_ruler(&mut out);
    out.append("\n  Total: ");
    out.append(fmt_size(total).as_str());
    out.append("\n\n");
    out
}

} // verus!
