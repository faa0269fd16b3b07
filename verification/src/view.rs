//! What the two tabs of the terminal interface share: keys, scrolling, selections, messages and
//! colours.

use vstd::prelude::*;

use crate::paths::copy_bytes;
use crate::text::{fmt_size, push_decimal};
use crate::junk;
use crate::text;

verus! {

/// A key that was pressed.
#[derive(Debug, Clone, Copy)]
pub enum Key {
    Char(char),
    ArrowUp,
    ArrowDown,
    ArrowLeft,
    ArrowRight,
    Home,
    End,
    PageUp,
    PageDown,
    Space,
    Enter,
    Escape,
    Other,
}

pub open spec fn is_char(key: Key, c: char) -> bool {
    key matches Key::Char(k) && k == c
}

/// The key that changes the selection of a row.
pub open spec fn is_toggle(key: Key) -> bool {
    key is Space || is_char(key, ' ')
}

/// The key that deletes what is selected.
pub open spec fn is_delete(key: Key) -> bool {
    key is Enter || is_char(key, 'd')
}

pub(crate) fn key_is(key: Key, c: char) -> (yes: bool)
    ensures
        yes == is_char(key, c),
{
    match key {
        Key::Char(k) => k == c,
        _ => false,
    }
}

pub(crate) fn toggles(key: Key) -> (yes: bool)
    ensures
        yes == is_toggle(key),
{
    match key {
        Key::Space => true,
        _ => key_is(key, ' '),
    }
}

pub(crate) fn deletes(key: Key) -> (yes: bool)
    ensures
        yes == is_delete(key),
{
    match key {
        Key::Enter => true,
        _ => key_is(key, 'd'),
    }
}

/// What the frame around the tabs does with a key.
#[derive(Debug, PartialEq, Eq, Structural)]
pub enum ShellStep {
    Quit,
    ShowJunk,
    ShowTree,
    /// The key is for the tab that is shown.
    Page,
}

/// What the frame around the tabs does with a key.
pub open spec fn shell_step(key: Key) -> ShellStep {
    match key {
        Key::Char(c) => if c == 'q' {
            ShellStep::Quit
        } else if c == '1' {
            ShellStep::ShowJunk
        } else if c == '2' {
            ShellStep::ShowTree
        } else {
            ShellStep::Page
        },
        Key::Escape => ShellStep::Quit,
        _ => ShellStep::Page,
    }
}

/// What the frame around the tabs does with a key.
pub fn shell_key(key: Key) -> (step: ShellStep)
    ensures
        step == shell_step(key),
{
    match key {
        Key::Char(c) => {
            if c == 'q' {
                ShellStep::Quit
            } else if c == '1' {
                ShellStep::ShowJunk
            } else if c == '2' {
                ShellStep::ShowTree
            } else {
                ShellStep::Page
            }
        },
        Key::Escape => ShellStep::Quit,
        _ => ShellStep::Page,
    }
}

/// The way in which a wheel was turned.
#[derive(Debug, Clone, Copy)]
pub enum Turn {
    Down,
    Up,
    Still,
}

/// By how many rows a turn of the wheel scrolls.
pub open spec fn rows_of_turn(turn: Turn) -> int {
    match turn {
        Turn::Down => 3,
        Turn::Up => -3,
        Turn::Still => 0,
    }
}

/// By how many rows a turn of the wheel scrolls.
pub fn wheel_rows(turn: Turn) -> (rows: i32)
    ensures
        rows == rows_of_turn(turn),
{
    match turn {
        Turn::Down => 3,
        Turn::Up => -3,
        Turn::Still => 0,
    }
}

// ── Scrolling ───────────────────────────────────────────────────────────

/// How many rows a terminal of this height leaves to a tab.
pub open spec fn rows_left(height: Option<u16>) -> int {
    let rows = match height {
        Some(h) => h as int,
        None => 40int,
    };
    if rows < 5 {
        0
    } else {
        rows - 5
    }
}

/// How many rows a tab shows: what a terminal of this height leaves.
pub fn page_rows(height: Option<u16>) -> (page: usize)
    ensures
        page == rows_left(height),
{
    let rows: usize = match height {
        Some(h) => h as usize,
        None => 40,
    };
    rows.saturating_sub(5)
}

/// The row under the cursor and the first row that is shown.
#[derive(Debug, Clone, Copy, PartialEq, Eq, Structural)]
pub struct Window {
    pub cursor: usize,
    pub viewport: usize,
}

/// Where the cursor goes: at most to `max_idx` when it goes down, at most to the first row
/// when it goes up.
pub open spec fn moved_cursor(cursor: int, delta: int, max_idx: int) -> int {
    if delta > 0 {
        if cursor + delta <= max_idx {
            cursor + delta
        } else {
            max_idx
        }
    } else if cursor + delta >= 0 {
        cursor + delta
    } else {
        0
    }
}

/// The window around a cursor: it moves no further than it must.
pub open spec fn moved_viewport(viewport: int, cursor: int, page: int) -> int {
    if cursor >= viewport + page {
        cursor - (page - 1)
    } else if cursor < viewport {
        cursor
    } else {
        viewport
    }
}

pub open spec fn scrolled(w: Window, delta: int, page: int, max_idx: int) -> Window {
    let cursor = moved_cursor(w.cursor as int, delta, max_idx);
    Window {
        cursor: cursor as usize,
        viewport: moved_viewport(w.viewport as int, cursor, page) as usize,
    }
}

/// The cursor is among the rows that are shown.
pub open spec fn in_view(w: Window, page: int) -> bool {
    w.viewport <= w.cursor < w.viewport + page
}

/// The window can follow the cursor: some row is shown, or the cursor goes above the window.
pub open spec fn can_scroll(w: Window, delta: int, page: int, max_idx: int) -> bool {
    page > 0 || moved_cursor(w.cursor as int, delta, max_idx) < w.viewport
}

fn move_cursor(cursor: usize, delta: i32, max_idx: usize) -> (moved: usize)
    requires
        delta > i32::MIN,
    ensures
        moved == moved_cursor(cursor as int, delta as int, max_idx as int),
{
    if delta > 0 {
        let by: usize = delta as usize;
        if cursor >= max_idx || by > max_idx - cursor {
            max_idx
        } else {
            cursor + by
        }
    } else {
        cursor.saturating_sub((-delta) as usize)
    }
}

/// Whether the window can follow the cursor.
pub fn fits_scroll(delta: i32, w: Window, page: usize, max_idx: usize) -> (fits: bool)
    requires
        delta > i32::MIN,
    ensures
        fits == can_scroll(w, delta as int, page as int, max_idx as int),
{
    page > 0 || move_cursor(w.cursor, delta, max_idx) < w.viewport
}

/// Moves the cursor by `delta` rows, and the window with it.
pub fn scroll_by(delta: i32, w: Window, page: usize, max_idx: usize) -> (moved: Window)
    requires
        can_scroll(w, delta as int, page as int, max_idx as int),
        delta > i32::MIN,
    ensures
        moved == scrolled(w, delta as int, page as int, max_idx as int),
        page > 0 ==> in_view(moved, page as int),
{
    let cursor: usize = move_cursor(w.cursor, delta, max_idx);
    let viewport: usize = if cursor >= w.viewport && cursor - w.viewport >= page {
        cursor - (page - 1)
    } else if cursor < w.viewport {
        cursor
    } else {
        w.viewport
    };
    Window { cursor, viewport }
}

/// A way of moving through the rows.
#[derive(Debug, Clone, Copy, PartialEq, Eq, Structural)]
pub enum Motion {
    By(i32),
    Top,
    Bottom,
}

/// The motion that a key stands for, in a tab that shows `page` rows.
pub open spec fn motion_of(key: Key, page: int) -> Option<Motion> {
    match key {
        Key::Char(c) => if c == 'j' {
            Some(Motion::By(1))
        } else if c == 'k' {
            Some(Motion::By((-1) as i32))
        } else if c == 'G' {
            Some(Motion::Bottom)
        } else if c == 'g' {
            Some(Motion::Top)
        } else {
            None
        },
        Key::ArrowDown => Some(Motion::By(1)),
        Key::ArrowUp => Some(Motion::By((-1) as i32)),
        Key::End => Some(Motion::Bottom),
        Key::Home => Some(Motion::Top),
        Key::PageDown => Some(Motion::By(page as i32)),
        Key::PageUp => Some(Motion::By((-page) as i32)),
        _ => None,
    }
}

pub(crate) fn key_motion(key: Key, page: usize) -> (motion: Option<Motion>)
    requires
        page <= i32::MAX,
    ensures
        motion == motion_of(key, page as int),
        motion matches Some(Motion::By(delta)) ==> delta > i32::MIN,
{
    match key {
        Key::Char(c) => {
            if c == 'j' {
                Some(Motion::By(1))
            } else if c == 'k' {
                Some(Motion::By(-1))
            } else if c == 'G' {
                Some(Motion::Bottom)
            } else if c == 'g' {
                Some(Motion::Top)
            } else {
                None
            }
        },
        Key::ArrowDown => Some(Motion::By(1)),
        Key::ArrowUp => Some(Motion::By(-1)),
        Key::End => Some(Motion::Bottom),
        Key::Home => Some(Motion::Top),
        Key::PageDown => Some(Motion::By(page as i32)),
        Key::PageUp => Some(Motion::By(-(page as i32))),
        _ => None,
    }
}

/// The window after a motion; `last` is the last row.
pub open spec fn window_after(w: Window, motion: Motion, page: int, last: int) -> Window {
    match motion {
        Motion::By(delta) => scrolled(w, delta as int, page, last),
        Motion::Top => Window { cursor: 0, viewport: 0 },
        Motion::Bottom => Window {
            cursor: last as usize,
            viewport: (if last >= page {
                last - (page - 1)
            } else {
                0
            }) as usize,
        },
    }
}

/// The window can follow a motion. Only the way to the top needs no row to be shown.
pub open spec fn can_move(w: Window, motion: Motion, page: int, last: int) -> bool {
    match motion {
        Motion::By(delta) => can_scroll(w, delta as int, page, last),
        Motion::Top => true,
        Motion::Bottom => page > 0,
    }
}

/// The window can follow what a key does; `last` is the last row.
pub open spec fn can_take(w: Window, key: Key, page: int, last: int) -> bool {
    motion_of(key, page) matches Some(motion) ==> can_move(w, motion, page, last)
}

/// Whether the window can follow what a key does.
pub fn fits_key(key: Key, w: Window, page: usize, last: usize) -> (fits: bool)
    requires
        page <= i32::MAX,
    ensures
        fits == can_take(w, key, page as int, last as int),
{
    match key_motion(key, page) {
        Some(Motion::By(delta)) => fits_scroll(delta, w, page, last),
        Some(Motion::Bottom) => page > 0,
        _ => true,
    }
}

pub(crate) fn move_window(w: Window, motion: Motion, page: usize, last: usize) -> (moved: Window)
    requires
        can_move(w, motion, page as int, last as int),
        motion matches Motion::By(delta) ==> delta > i32::MIN,
    ensures
        moved == window_after(w, motion, page as int, last as int),
{
    match motion {
        Motion::By(delta) => scroll_by(delta, w, page, last),
        Motion::Top => Window { cursor: 0, viewport: 0 },
        Motion::Bottom => Window { cursor: last, viewport: last.saturating_sub(page - 1) },
    }
}

/// Wherever the cursor goes, it stays among the rows that are shown.
pub proof fn motion_keeps_cursor_in_view(w: Window, motion: Motion, page: int, last: int)
    requires
        0 < page,
        0 <= last <= usize::MAX,
    ensures
        in_view(window_after(w, motion, page, last), page),
{
}

/// A cursor within the list stays within it.
pub proof fn motion_keeps_cursor_in_list(w: Window, motion: Motion, page: int, last: int)
    requires
        0 < page,
        w.cursor <= last <= usize::MAX,
    ensures
        window_after(w, motion, page, last).cursor <= last,
{
}

// ── Selections ──────────────────────────────────────────────────────────

pub open spec fn is_on(selected: Seq<bool>, i: int) -> bool {
    i < selected.len() && selected[i]
}

/// The selection with item `i` changed.
pub open spec fn toggled(selected: Seq<bool>, i: int) -> Seq<bool> {
    if i < selected.len() {
        selected.update(i, !selected[i])
    } else {
        selected
    }
}

pub(crate) fn toggle(selected: &mut Vec<bool>, i: usize)
    ensures
        final(selected)@ == toggled(old(selected)@, i as int),
{
    if i < selected.len() {
        let on: bool = selected[i];
        selected.set(i, !on);
    }
}

/// `n` times the same choice.
pub open spec fn uniform(n: nat, on: bool) -> Seq<bool> {
    Seq::new(n, |i: int| on)
}

pub(crate) fn fill(n: usize, on: bool) -> (selected: Vec<bool>)
    ensures
        selected@ == uniform(n as nat, on),
{
    let mut selected: Vec<bool> = Vec::with_capacity(n);
    let mut i: usize = 0;
    assert(selected@ =~= uniform(0, on));
    while i < n
        invariant
            i <= n,
            selected@ == uniform(i as nat, on),
        decreases n - i,
    {
        selected.push(on);
        i = i + 1;
        assert(selected@ =~= uniform(i as nat, on));
    }
    selected
}

pub open spec fn any_on(selected: Seq<bool>) -> bool {
    exists|i: int| 0 <= i < selected.len() && #[trigger] selected[i]
}

pub open spec fn all_on(selected: Seq<bool>) -> bool {
    forall|i: int| 0 <= i < selected.len() ==> #[trigger] selected[i]
}

pub(crate) fn has_on(selected: &[bool], on: bool) -> (found: bool)
    ensures
        on ==> found == any_on(selected@),
        !on ==> found == !all_on(selected@),
{
    let mut i: usize = 0;
    while i < selected.len()
        invariant
            i <= selected@.len(),
            forall|k: int| 0 <= k < i ==> #[trigger] selected@[k] != on,
        decreases selected@.len() - i,
    {
        if selected[i] == on {
            return true;
        }
        i = i + 1;
    }
    false
}

/// How many items are selected.
pub open spec fn count_on(selected: Seq<bool>) -> nat
    decreases selected.len(),
{
    if selected.len() == 0 {
        0
    } else {
        count_on(selected.drop_last()) + (if selected.last() {
            1nat
        } else {
            0
        })
    }
}

pub fn selected_count(selected: &[bool]) -> (count: usize)
    ensures
        count == count_on(selected@),
        count <= selected@.len(),
{
    let mut count: usize = 0;
    let mut i: usize = 0;
    assert(selected@.len() == selected.len());
    while i < selected.len()
        invariant
            i <= selected@.len() <= usize::MAX,
            count == count_on(selected@.take(i as int)),
            count <= i,
        decreases selected@.len() - i,
    {
        assert(selected@.take(i + 1).drop_last() =~= selected@.take(i as int));
        if selected[i] {
            count = count + 1;
        }
        i = i + 1;
    }
    assert(selected@.take(i as int) =~= selected@);
    count
}

/// What has a size in bytes.
pub trait Weighed: Sized {
    spec fn weight(self) -> nat;

    fn size_of(&self) -> (size: u64)
        ensures
            size == self.weight(),
    ;
}

/// What the selected items take.
pub open spec fn selected_size<T: Weighed>(items: Seq<T>, selected: Seq<bool>) -> nat
    decreases items.len(),
{
    if items.len() == 0 {
        0
    } else {
        let n = items.len() - 1;
        selected_size(items.drop_last(), selected) + (if is_on(selected, n) {
            items[n].weight()
        } else {
            0
        })
    }
}

proof fn lemma_selected_step<T: Weighed>(items: Seq<T>, selected: Seq<bool>, k: int)
    requires
        0 <= k <= items.len(),
    ensures
        selected_size(items.take(k), selected) <= selected_size(items, selected),
    decreases items.len() - k,
{
    if k < items.len() {
        lemma_selected_step(items, selected, k + 1);
        assert(items.take(k + 1).drop_last() =~= items.take(k));
    } else {
        assert(items.take(k) =~= items);
    }
}

/// What the selected items take, if the number fits.
pub fn sum_selected<T: Weighed>(items: &[T], selected: &[bool]) -> (sum: Option<u64>)
    ensures
        sum == (if selected_size(items@, selected@) <= u64::MAX {
            Some(selected_size(items@, selected@) as u64)
        } else {
            None
        }),
{
    let mut sum: u64 = 0;
    let mut i: usize = 0;
    while i < items.len()
        invariant
            i <= items@.len(),
            sum == selected_size(items@.take(i as int), selected@),
        decreases items@.len() - i,
    {
        proof {
            assert(items@.take(i + 1).drop_last() =~= items@.take(i as int));
            lemma_selected_step(items@, selected@, i + 1);
        }
        if i < selected.len() && selected[i] {
            match sum.checked_add(items[i].size_of()) {
                Some(next) => {
                    sum = next;
                },
                None => {
                    return None;
                },
            }
        }
        i = i + 1;
    }
    assert(items@.take(i as int) =~= items@);
    Some(sum)
}

/// Those of the first `n` paths that are selected, in order.
pub open spec fn chosen(selected: Seq<bool>, paths: Seq<Seq<u8>>) -> Seq<Seq<u8>>
    decreases paths.len(),
{
    if paths.len() == 0 {
        seq![]
    } else {
        let n = paths.len() - 1;
        let before = chosen(selected, paths.drop_last());
        if is_on(selected, n) {
            before.push(paths[n])
        } else {
            before
        }
    }
}

/// Adds a path to a list of chosen ones, if it is selected.
pub(crate) fn choose_path(
    out: &mut Vec<Vec<u8>>,
    selected: &[bool],
    i: usize,
    path: &[u8],
    Ghost(paths): Ghost<Seq<Seq<u8>>>,
)
    requires
        i < paths.len(),
        path@ == paths[i as int],
        junk::paths_of(old(out)@) == chosen(selected@, paths.take(i as int)),
    ensures
        junk::paths_of(final(out)@) == chosen(selected@, paths.take(i + 1)),
{
    assert(paths.take(i + 1).drop_last() =~= paths.take(i as int));
    if i < selected.len() && selected[i] {
        let copy = copy_bytes(path);
        assert(junk::paths_of(out@.push(copy)) =~= junk::paths_of(out@).push(copy@));
        out.push(copy);
    }
}

// ── Messages ────────────────────────────────────────────────────────────

/// How a deletion stands, once it has begun.
pub open spec fn progress_text(done: nat, total: nat) -> Seq<char> {
    if done == total {
        "Done: "@ + text::decimal(done) + " deleted."@
    } else {
        started_text(done, total)
    }
}

pub open spec fn started_text(done: nat, total: nat) -> Seq<char> {
    "Deleting "@ + text::decimal(done) + "/"@ + text::decimal(total) + "..."@
}

fn started(done: usize, total: usize) -> (message: String)
    ensures
        message@ == started_text(done as nat, total as nat),
{
    let mut message: String = "Deleting ".to_owned();
    push_decimal(&mut message, done as u64);
    message.append("/");
    push_decimal(&mut message, total as u64);
    message.append("...");
    message
}

/// What is said when nothing is selected, and when a deletion of `n` paths begins.
pub open spec fn deletion_text(n: nat) -> Seq<char> {
    if n == 0 {
        "Nothing selected."@
    } else {
        started_text(0, n)
    }
}

pub(crate) fn deletion_message(n: usize) -> (message: String)
    ensures
        message@ == deletion_text(n as nat),
{
    if n == 0 {
        "Nothing selected.".to_owned()
    } else {
        started(0, n)
    }
}

/// What is said while `running` of `total` deletions go on.
pub fn progress(running: usize, total: usize) -> (message: String)
    requires
        running <= total,
    ensures
        message@ == progress_text((total - running) as nat, total as nat),
{
    let done: usize = total - running;
    if running == 0 {
        let mut message: String = "Done: ".to_owned();
        push_decimal(&mut message, done as u64);
        message.append(" deleted.");
        message
    } else {
        started(done, total)
    }
}

/// The line that tells how much is selected.
pub open spec fn selection_text(count: nat, bytes: nat) -> Seq<char> {
    "Selected: "@ + text::decimal(count) + " ("@ + text::size_text(bytes) + ")"@
}

pub(crate) fn selection_line(count: usize, bytes: u64) -> (line: String)
    ensures
        line@ == selection_text(count as nat, bytes as nat),
{
    let mut line: String = "Selected: ".to_owned();
    push_decimal(&mut line, count as u64);
    line.append(" (");
    line.append(fmt_size(bytes).as_str());
    line.append(")");
    line
}

/// The help of a tab, its position, and the message behind them if there is one.
pub open spec fn footer_text(
    help: Seq<char>,
    cursor: nat,
    len: nat,
    message: Seq<char>,
) -> Seq<char> {
    let line = help + text::decimal(cursor + 1) + "/"@ + text::decimal(len);
    if message.len() == 0 {
        line
    } else {
        line + "  │ "@ + message
    }
}

pub(crate) fn footer_line(help: &str, cursor: usize, len: usize, message: &str) -> (line: String)
    requires
        cursor < usize::MAX,
    ensures
        line@ == footer_text(help@, cursor as nat, len as nat, message@),
{
    let mut line: String = help.to_owned();
    push_decimal(&mut line, (cursor + 1) as u64);
    line.append("/");
    push_decimal(&mut line, len as u64);
    if message.unicode_len() > 0 {
        line.append("  │ ");
        line.append(message);
    }
    line
}

// ── Colours ─────────────────────────────────────────────────────────────

#[derive(Debug, Clone, Copy, PartialEq, Eq, Structural)]
pub struct Rgb {
    pub r: u8,
    pub g: u8,
    pub b: u8,
}

pub open spec fn rgb_of(r: u8, g: u8, b: u8) -> Rgb {
    Rgb { r, g, b }
}

/// The background of a row: one for the cursor, and two in turn for the others.
pub open spec fn shade_of(index: int, cursor: int) -> Rgb {
    if index == cursor {
        rgb_of(50, 50, 80)
    } else if index % 2 == 0 {
        rgb_of(18, 18, 28)
    } else {
        rgb_of(14, 14, 22)
    }
}

pub(crate) fn shade(index: usize, cursor: usize) -> (shade: Rgb)
    ensures
        shade == shade_of(index as int, cursor as int),
{
    if index == cursor {
        Rgb { r: 50, g: 50, b: 80 }
    } else if index % 2 == 0 {
        Rgb { r: 18, g: 18, b: 28 }
    } else {
        Rgb { r: 14, g: 14, b: 22 }
    }
}

/// The background of a tab's label.
pub open spec fn label_shade(active: bool) -> Rgb {
    if active {
        rgb_of(60, 60, 100)
    } else {
        rgb_of(30, 30, 50)
    }
}

/// The background of a tab's label.
pub fn tab_shade(active: bool) -> (shade: Rgb)
    ensures
        shade == label_shade(active),
{
    if active {
        Rgb { r: 60, g: 60, b: 100 }
    } else {
        Rgb { r: 30, g: 30, b: 50 }
    }
}

} // verus!
