//! Laws of the keys: which key does what, to which row, and that it does nothing else.

use vstd::prelude::*;

use crate::junk_view::{JunkState, JunkView};
use crate::scan::TreeEntry;
use crate::tree::VisibleRow;
use crate::tree_view::{TreeState, TreeView};
use crate::view::{Key, ShellStep, Turn, Weighed, Window};
use crate::walker::EntryKind;
use crate::junk_view;
use crate::text;
use crate::tree_view;
use crate::view;

verus! {

// ── The frame ───────────────────────────────────────────────────────────

/// The frame takes `q`, Escape, `1` and `2`, and leaves every other key to the tab.
pub proof fn the_frame_takes_four_keys(key: Key)
    ensures
        view::shell_step(key) == ShellStep::Quit <==> key == Key::Char('q') || key == Key::Escape,
        view::shell_step(key) == ShellStep::ShowJunk <==> key == Key::Char('1'),
        view::shell_step(key) == ShellStep::ShowTree <==> key == Key::Char('2'),
{
}

/// The wheel scrolls by three rows, up as far as down, and a terminal leaves all rows but five.
pub proof fn the_wheel_and_the_page(height: u16)
    ensures
        view::rows_of_turn(Turn::Down) == 3,
        view::rows_of_turn(Turn::Up) + view::rows_of_turn(Turn::Down) == 0,
        view::rows_of_turn(Turn::Still) == 0,
        height >= 5 ==> view::rows_left(Some(height)) + 5 == height,
        height < 5 ==> view::rows_left(Some(height)) == 0,
        view::rows_left(None) == view::rows_left(Some(40)),
{
}

// ── Scrolling ───────────────────────────────────────────────────────────

/// The cursor goes as far as it is told, but not beyond the last row or above the first one. The
/// window moves no further than it must for the cursor to be shown.
pub proof fn scrolling_goes_as_far_as_it_is_told(w: Window, delta: int, page: int, last: int)
    requires
        page >= 0,
        0 <= last <= usize::MAX,
    ensures
        ({
            let after = view::scrolled(w, delta, page, last);
            &&& delta > 0 && w.cursor + delta <= last ==> after.cursor == w.cursor + delta
            &&& delta > 0 && w.cursor + delta > last ==> after.cursor == last
            &&& delta <= 0 && w.cursor + delta >= 0 ==> after.cursor == w.cursor + delta
            &&& delta <= 0 && w.cursor + delta < 0 ==> after.cursor == 0
            &&& page > 0 ==> after.viewport <= after.cursor < after.viewport + page
            &&& w.viewport <= after.cursor < w.viewport + page ==> after.viewport == w.viewport
            &&& after.cursor < w.viewport ==> after.viewport == after.cursor
            &&& page > 0 && after.cursor >= w.viewport + page ==> after.viewport + page
                == after.cursor + 1
        }),
{
}

/// The window can be moved wherever it has rows. Where it has none, the cursor has to end up
/// above it: on the row before it, or further up.
pub proof fn a_window_without_rows_goes_up_alone(w: Window, delta: int, page: int, last: int)
    ensures
        page > 0 ==> view::can_scroll(w, delta, page, last),
        page <= 0 && delta > 0 ==> (view::can_scroll(w, delta, page, last) <==> last < w.viewport
            || w.cursor + delta < w.viewport),
        page <= 0 && delta <= 0 ==> (view::can_scroll(w, delta, page, last) <==> w.viewport > 0
            && w.cursor + delta < w.viewport),
        view::in_view(w, page) <==> 0 <= w.cursor - w.viewport && w.cursor - w.viewport < page,
{
}

/// The window after a key, where the key moves it.
pub open spec fn is_moved(w: Window, key: Key, page: int, last: int, after: Window) -> bool {
    &&& key == Key::Char('j') || key == Key::ArrowDown ==> after.cursor == (if w.cursor < last {
        w.cursor + 1
    } else {
        last
    })
    &&& key == Key::Char('k') || key == Key::ArrowUp ==> after.cursor == (if w.cursor > 0 {
        w.cursor - 1
    } else {
        0
    })
    &&& key == Key::PageDown ==> after.cursor == (if w.cursor + page <= last {
        w.cursor + page
    } else {
        last
    })
    &&& key == Key::PageUp ==> after.cursor == (if w.cursor >= page {
        w.cursor - page
    } else {
        0
    })
    &&& key == Key::Char('g') || key == Key::Home ==> after.cursor == 0 && after.viewport == 0
    &&& key == Key::Char('G') || key == Key::End ==> after.cursor == last
    &&& after.viewport <= after.cursor < after.viewport + page
}

/// The keys that move through the rows.
pub open spec fn moves(key: Key) -> bool {
    ||| key == Key::Char('j') || key == Key::ArrowDown || key == Key::PageDown
    ||| key == Key::Char('k') || key == Key::ArrowUp || key == Key::PageUp
    ||| key == Key::Char('g') || key == Key::Home
    ||| key == Key::Char('G') || key == Key::End
}

// ── Selections ──────────────────────────────────────────────────────────

/// The selection is as it was but for item `i`, which is the opposite of what it was.
pub open spec fn differs_at(before: Seq<bool>, after: Seq<bool>, i: int) -> bool {
    &&& after.len() == before.len()
    &&& 0 <= i < before.len() ==> after[i] == !before[i]
    &&& forall|k: int| 0 <= k < before.len() && k != i ==> after[k] == before[k]
}

/// The number of selected items goes up by one with each that is selected, and down by one with
/// each that is not any more; it is the number of items where all are selected.
pub proof fn the_count_follows_the_selection(selected: Seq<bool>, i: int, n: nat)
    requires
        0 <= i < selected.len(),
    ensures
        view::count_on(selected.update(i, true)) == view::count_on(selected.update(i, false)) + 1,
        view::count_on(view::uniform(n, true)) == n,
        view::count_on(view::uniform(n, false)) == 0,
    decreases selected.len() + n,
{
    if n > 0 {
        the_count_follows_the_selection(selected, i, (n - 1) as nat);
        assert(view::uniform(n, true).drop_last() =~= view::uniform((n - 1) as nat, true));
        assert(view::uniform(n, false).drop_last() =~= view::uniform((n - 1) as nat, false));
    } else {
        let front = selected.drop_last();
        if i < selected.len() - 1 {
            the_count_follows_the_selection(front, i, 0);
            assert(selected.update(i, true).drop_last() =~= front.update(i, true));
            assert(selected.update(i, false).drop_last() =~= front.update(i, false));
        } else {
            assert(selected.update(i, true).drop_last() =~= front);
            assert(selected.update(i, false).drop_last() =~= front);
        }
    }
}

/// What the selected items take goes up by the size of each that is selected.
pub proof fn the_size_follows_the_selection<T: Weighed>(
    items: Seq<T>,
    selected: Seq<bool>,
    i: int,
)
    requires
        0 <= i < items.len(),
        i < selected.len(),
    ensures
        view::selected_size(items, selected.update(i, true)) == view::selected_size(
            items,
            selected.update(i, false),
        ) + items[i].weight(),
    decreases items.len(),
{
    if i < items.len() - 1 {
        the_size_follows_the_selection(items.drop_last(), selected, i);
    } else {
        lemma_beyond(items.drop_last(), selected, i, true);
        lemma_beyond(items.drop_last(), selected, i, false);
    }
}

proof fn lemma_beyond<T: Weighed>(items: Seq<T>, selected: Seq<bool>, i: int, on: bool)
    requires
        items.len() <= i < selected.len(),
    ensures
        view::selected_size(items, selected.update(i, on)) == view::selected_size(items, selected),
    decreases items.len(),
{
    if items.len() > 0 {
        lemma_beyond(items.drop_last(), selected, i, on);
    }
}

/// With nothing selected the selection takes nothing.
pub proof fn nothing_selected_takes_nothing<T: Weighed>(items: Seq<T>, n: nat)
    ensures
        view::selected_size(items, view::uniform(n, false)) == 0,
    decreases items.len(),
{
    if items.len() > 0 {
        nothing_selected_takes_nothing(items.drop_last(), n);
    }
}

/// What is deleted of two lists one behind the other is what is deleted of the first and then what
/// is deleted of the second. Of a single path it is that path where it is selected, and nothing
/// where it is not.
pub proof fn deleting_goes_path_by_path(
    selected: Seq<bool>,
    a: Seq<Seq<u8>>,
    b: Seq<Seq<u8>>,
    path: Seq<u8>,
)
    ensures
        a.len() <= selected.len() ==> view::chosen(selected, a + b) == view::chosen(selected, a)
            + view::chosen(selected.skip(a.len() as int), b),
        selected.len() > 0 && selected[0] ==> view::chosen(selected, seq![path]) == seq![path],
        selected.len() > 0 && !selected[0] ==> view::chosen(selected, seq![path]).len() == 0,
        selected.len() == 0 ==> view::chosen(selected, a).len() == 0,
    decreases a.len() + b.len(),
{
    reveal_with_fuel(view::chosen, 2);
    if selected.len() == 0 && a.len() > 0 {
        deleting_goes_path_by_path(selected, a.drop_last(), seq![], path);
    }
    if a.len() <= selected.len() {
        if b.len() > 0 {
            deleting_goes_path_by_path(selected, a, b.drop_last(), path);
            assert((a + b).drop_last() =~= a + b.drop_last());
            let n = (a + b).len() - 1;
            let rest = selected.skip(a.len() as int);
            assert(n < selected.len() ==> selected[n] == rest[n - a.len()]);
            assert(view::chosen(selected, a + b) =~= view::chosen(selected, a) + view::chosen(
                rest,
                b,
            ));
        } else {
            assert(a + b =~= a);
            assert(view::chosen(selected, a + b) =~= view::chosen(selected, a) + view::chosen(
                selected.skip(a.len() as int),
                b,
            ));
        }
    }
    assert(selected.len() > 0 && selected[0] ==> view::chosen(selected, seq![path]) =~= seq![path])
        by {
        assert(seq![path].drop_last() =~= seq![]);
    }
    assert(seq![path].drop_last() =~= seq![]);
}

// ── The junk tab ────────────────────────────────────────────────────────

/// Space changes the selection of the hit under the cursor and of no other, wherever the window
/// stands, and nothing else.
pub proof fn space_changes_the_hit_under_the_cursor(
    s: JunkState,
    key: Key,
    page: int,
    paths: Seq<Seq<u8>>,
)
    requires
        key == Key::Space || key == Key::Char(' '),
    ensures
        ({
            let after = junk_view::state_after(s, key, page, paths);
            &&& s.window.cursor < paths.len() ==> differs_at(
                s.selected,
                after.selected,
                s.window.cursor as int,
            )
            &&& s.window.cursor >= paths.len() ==> after.selected == s.selected
            &&& after.window == s.window && after.message == s.message
            &&& after.delete_total == s.delete_total
            &&& junk_view::deleted_by(s.selected, key, paths).len() == 0
        }),
{
}

/// `a` selects everything, or nothing where everything was selected, and changes nothing else.
pub proof fn all_hits_are_selected_at_once(s: JunkState, page: int, paths: Seq<Seq<u8>>)
    ensures
        ({
            let after = junk_view::state_after(s, Key::Char('a'), page, paths);
            let all = forall|i: int| 0 <= i < s.selected.len() ==> #[trigger] s.selected[i];
            &&& after.selected.len() == s.selected.len()
            &&& forall|i: int| 0 <= i < s.selected.len() ==> #[trigger] after.selected[i] == !all
            &&& after.window == s.window && after.message == s.message
            &&& after.delete_total == s.delete_total
            &&& junk_view::deleted_by(s.selected, Key::Char('a'), paths).len() == 0
        }),
{
}

/// `d` and Enter delete what is selected, and say how many paths that are; the selection and the
/// window stay.
pub proof fn delete_takes_what_is_selected(
    s: JunkState,
    key: Key,
    page: int,
    paths: Seq<Seq<u8>>,
)
    requires
        key == Key::Enter || key == Key::Char('d'),
    ensures
        ({
            let after = junk_view::state_after(s, key, page, paths);
            let doomed = junk_view::deleted_by(s.selected, key, paths);
            &&& forall|path: Seq<u8>|
                doomed.contains(path) <==> exists|i: int|
                    0 <= i < paths.len() && i < s.selected.len() && #[trigger] paths[i] == path
                        && s.selected[i]
            &&& after.selected == s.selected && after.window == s.window
            &&& doomed.len() == 0 ==> after.message == "Nothing selected."@ && after.delete_total
                == s.delete_total
            &&& doomed.len() > 0 ==> after.message == "Deleting 0/"@ + text::decimal(doomed.len())
                + "..."@ && after.delete_total == doomed.len()
        }),
{
    let doomed = junk_view::deleted_by(s.selected, key, paths);
    assert forall|path: Seq<u8>|
        doomed.contains(path) <==> exists|i: int|
            0 <= i < paths.len() && i < s.selected.len() && #[trigger] paths[i] == path
                && s.selected[i] by {
        junk_view::only_selected_is_deleted(s.selected, paths, path);
    }
    lemma_started_text(doomed.len());
}

proof fn lemma_started_text(n: nat)
    ensures
        view::started_text(0, n) == "Deleting 0/"@ + text::decimal(n) + "..."@,
{
    reveal_strlit("Deleting ");
    reveal_strlit("/");
    reveal_strlit("Deleting 0/");
    assert(text::decimal(0) =~= seq!['0']);
    assert("Deleting "@ + text::decimal(0) + "/"@ =~= "Deleting 0/"@);
}

/// The keys that move change the window alone, each in its way.
pub proof fn moving_changes_the_window_alone(
    s: JunkState,
    key: Key,
    page: int,
    paths: Seq<Seq<u8>>,
)
    requires
        moves(key),
        0 < page <= i32::MAX,
        paths.len() <= usize::MAX,
    ensures
        ({
            let after = junk_view::state_after(s, key, page, paths);
            let last = if paths.len() == 0 {
                0
            } else {
                paths.len() - 1
            };
            &&& is_moved(s.window, key, page, last as int, after.window)
            &&& after.selected == s.selected && after.message == s.message
            &&& after.delete_total == s.delete_total
            &&& junk_view::deleted_by(s.selected, key, paths).len() == 0
        }),
{
}

/// Every other key leaves the tab as it is, and deletes nothing.
pub proof fn other_keys_do_nothing(s: JunkState, key: Key, page: int, paths: Seq<Seq<u8>>)
    requires
        !moves(key),
        key != Key::Space && key != Key::Char(' ') && key != Key::Char('a'),
        key != Key::Enter && key != Key::Char('d'),
    ensures
        junk_view::state_after(s, key, page, paths) == s,
        junk_view::deleted_by(s.selected, key, paths).len() == 0,
{
}

/// The tab starts at the top with every hit selected and nothing said.
pub proof fn the_junk_tab_starts_with_all_selected(len: nat, i: int)
    requires
        0 <= i < len,
    ensures
        junk_view::first_state(len).selected.len() == len,
        junk_view::first_state(len).selected[i],
        junk_view::first_state(len).window.cursor == 0,
        junk_view::first_state(len).window.viewport == 0,
        junk_view::first_state(len).message.len() == 0,
        junk_view::first_state(len).delete_total == 0,
{
}

/// A click puts the cursor on the row and changes its selection alone; the wheel changes the
/// window alone; news of the deletions changes the message alone.
pub proof fn clicks_wheel_and_news_in_the_junk_tab(
    s: JunkState,
    index: usize,
    delta: int,
    page: int,
    len: nat,
    running: nat,
)
    requires
        running <= s.delete_total,
    ensures
        ({
            let after = junk_view::clicked(s, index);
            &&& after.window.cursor == index && after.window.viewport == s.window.viewport
            &&& differs_at(s.selected, after.selected, index as int)
            &&& after.message == s.message && after.delete_total == s.delete_total
        }),
        ({
            let after = junk_view::scrolled_by(s, delta, page, len);
            &&& after.window == view::scrolled(
                s.window,
                delta,
                page,
                if len == 0 {
                    0
                } else {
                    len - 1
                },
            )
            &&& after.selected == s.selected && after.message == s.message
            &&& after.delete_total == s.delete_total
        }),
        ({
            let after = junk_view::polled(s, running);
            &&& after.window == s.window && after.selected == s.selected
            &&& after.delete_total == s.delete_total
            &&& running == 0 ==> after.message == "Done: "@ + text::decimal(s.delete_total)
                + " deleted."@
            &&& running > 0 ==> after.message == "Deleting "@ + text::decimal(
                (s.delete_total - running) as nat,
            ) + "/"@ + text::decimal(s.delete_total) + "..."@
        }),
{
}

/// The states of the tabs are taken as they stand.
pub proof fn tabs_are_taken_as_they_stand(junk: JunkView, tree: TreeView)
    ensures
        junk@.window == junk.window && junk@.selected == junk.selected@,
        junk@.message == junk.message@ && junk@.delete_total == junk.delete_total,
        tree@.window == tree.window && tree@.selected == tree.selected@,
        tree@.message == tree.message@ && tree@.delete_total == tree.delete_total,
        tree@.size_mode == tree.size_mode && tree@.expanded == tree.expanded@,
{
}

// ── The tree tab ────────────────────────────────────────────────────────

/// Nothing but what is named here has changed.
pub open spec fn keeps_the_rest(
    s: TreeState,
    after: TreeState,
    window: bool,
    selected: bool,
    expanded: bool,
    message: bool,
    mode: bool,
) -> bool {
    &&& window || after.window == s.window
    &&& selected || after.selected == s.selected
    &&& expanded || after.expanded == s.expanded
    &&& message || (after.message == s.message && after.delete_total == s.delete_total)
    &&& mode || after.size_mode == s.size_mode
}

/// Space changes the selection of the entry in the row under the cursor and of no other, wherever
/// the window stands. In the view by size that is the entry that the row shows, in the view as a
/// tree it is the entry of that number.
pub proof fn space_changes_the_entry_under_the_cursor(
    s: TreeState,
    key: Key,
    page: int,
    tree: Seq<TreeEntry>,
    rows: Seq<VisibleRow>,
)
    requires
        key == Key::Space || key == Key::Char(' '),
        forall|i: int| 0 <= i < rows.len() ==> (#[trigger] rows[i]).data_idx < tree.len(),
    ensures
        ({
            let after = tree_view::state_after(s, key, page, tree, rows);
            let at = s.window.cursor as int;
            &&& s.size_mode && at < rows.len() ==> differs_at(
                s.selected,
                after.selected,
                rows[at].data_idx as int,
            )
            &&& !s.size_mode && at < tree.len() ==> differs_at(s.selected, after.selected, at)
            &&& !s.size_mode && at >= tree.len() ==> after.selected == s.selected
            &&& s.size_mode && at >= rows.len() && tree.len() > 0 ==> differs_at(
                s.selected,
                after.selected,
                0,
            )
            &&& tree.len() == 0 ==> after.selected == s.selected
            &&& keeps_the_rest(s, after, false, true, false, false, false)
        }),
{
}

/// `a` deselects everything where something is selected, and else selects everything.
pub proof fn all_entries_are_selected_at_once(
    s: TreeState,
    page: int,
    tree: Seq<TreeEntry>,
    rows: Seq<VisibleRow>,
)
    ensures
        ({
            let after = tree_view::state_after(s, Key::Char('a'), page, tree, rows);
            let some = exists|i: int| 0 <= i < s.selected.len() && #[trigger] s.selected[i];
            &&& after.selected.len() == s.selected.len()
            &&& forall|i: int| 0 <= i < s.selected.len() ==> #[trigger] after.selected[i] == !some
            &&& keeps_the_rest(s, after, false, true, false, false, false)
        }),
{
}

/// `d` and Enter leave everything but the message, which says how many entries are deleted.
pub proof fn delete_takes_the_selected_entries(
    s: TreeState,
    key: Key,
    page: int,
    tree: Seq<TreeEntry>,
    rows: Seq<VisibleRow>,
)
    requires
        key == Key::Enter || key == Key::Char('d'),
    ensures
        ({
            let after = tree_view::state_after(s, key, page, tree, rows);
            let doomed = junk_view::deleted_by(s.selected, key, tree_view::entry_paths(tree));
            &&& forall|path: Seq<u8>|
                doomed.contains(path) <==> exists|i: int|
                    0 <= i < tree.len() && i < s.selected.len() && (#[trigger] tree[i]).path@ == path
                        && s.selected[i]
            &&& keeps_the_rest(s, after, false, false, false, true, false)
            &&& doomed.len() == 0 ==> after.message == "Nothing selected."@ && after.delete_total
                == s.delete_total
            &&& doomed.len() > 0 ==> after.message == "Deleting 0/"@ + text::decimal(doomed.len())
                + "..."@ && after.delete_total == doomed.len()
        }),
{
    let all = tree_view::entry_paths(tree);
    let doomed = junk_view::deleted_by(s.selected, key, all);
    assert forall|path: Seq<u8>|
        doomed.contains(path) <==> exists|i: int|
            0 <= i < tree.len() && i < s.selected.len() && (#[trigger] tree[i]).path@ == path
                && s.selected[i] by {
        junk_view::only_selected_is_deleted(s.selected, all, path);
        if doomed.contains(path) {
            let i = choose|i: int|
                0 <= i < all.len() && #[trigger] all[i] == path && view::is_on(s.selected, i);
            assert(tree[i].path@ == path);
        }
        if exists|i: int|
            0 <= i < tree.len() && i < s.selected.len() && (#[trigger] tree[i]).path@ == path
                && s.selected[i] {
            let i = choose|i: int|
                0 <= i < tree.len() && i < s.selected.len() && (#[trigger] tree[i]).path@ == path
                    && s.selected[i];
            assert(all[i] == path);
        }
    }
    lemma_started_text(doomed.len());
}

/// The keys that move change the window alone, each in its way, over the rows that are shown.
pub proof fn moving_in_the_tree_changes_the_window_alone(
    s: TreeState,
    key: Key,
    page: int,
    tree: Seq<TreeEntry>,
    rows: Seq<VisibleRow>,
)
    requires
        moves(key),
        0 < page <= i32::MAX,
        tree.len() <= usize::MAX,
        rows.len() <= usize::MAX,
    ensures
        ({
            let after = tree_view::state_after(s, key, page, tree, rows);
            let shown = if s.size_mode {
                rows.len()
            } else {
                tree.len()
            };
            let last = if shown == 0 {
                0
            } else {
                shown - 1
            };
            &&& is_moved(s.window, key, page, last as int, after.window)
            &&& keeps_the_rest(s, after, true, false, false, false, false)
        }),
{
}

/// `s` changes between the two views and goes to the top.
pub proof fn the_view_changes_and_goes_to_the_top(
    s: TreeState,
    page: int,
    tree: Seq<TreeEntry>,
    rows: Seq<VisibleRow>,
)
    ensures
        ({
            let after = tree_view::state_after(s, Key::Char('s'), page, tree, rows);
            &&& after.size_mode == !s.size_mode
            &&& after.window.cursor == 0 && after.window.viewport == 0
            &&& keeps_the_rest(s, after, true, false, false, false, true)
        }),
{
}

/// `l` and the right arrow expand the directory under the cursor, `h` and the left arrow collapse
/// it, or else the directory under which the row stands. Nothing else is expanded or collapsed.
pub proof fn expanding_and_collapsing(
    s: TreeState,
    key: Key,
    page: int,
    tree: Seq<TreeEntry>,
    rows: Seq<VisibleRow>,
    e: usize,
)
    ensures
        ({
            let after = tree_view::state_after(s, key, page, tree, rows);
            let at = s.window.cursor as int;
            let on_row = s.size_mode && at < rows.len();
            &&& key == Key::Char('l') || key == Key::ArrowRight ==> {
                &&& keeps_the_rest(s, after, false, false, true, false, false)
                &&& after.expanded.contains(e) <==> s.expanded.contains(e) || (on_row && e
                    == rows[at].data_idx && tree[e as int].kind == EntryKind::Dir)
            }
            &&& key == Key::Char('h') || key == Key::ArrowLeft ==> {
                &&& keeps_the_rest(s, after, false, false, true, false, false)
                &&& after.expanded.contains(e) <==> s.expanded.contains(e) && !(on_row && (e
                    == rows[at].data_idx || (!s.expanded.contains(rows[at].data_idx)
                    && rows[at].parent_data_idx == Some(e))))
            }
        }),
{
}

/// Every other key leaves the tab as it is, and deletes nothing.
pub proof fn other_keys_do_nothing_in_the_tree(
    s: TreeState,
    key: Key,
    page: int,
    tree: Seq<TreeEntry>,
    rows: Seq<VisibleRow>,
)
    requires
        !moves(key),
        key != Key::Space && key != Key::Char(' ') && key != Key::Char('a'),
        key != Key::Enter && key != Key::Char('d') && key != Key::Char('s'),
        key != Key::Char('l') && key != Key::ArrowRight,
        key != Key::Char('h') && key != Key::ArrowLeft,
    ensures
        tree_view::state_after(s, key, page, tree, rows) == s,
        junk_view::deleted_by(s.selected, key, tree_view::entry_paths(tree)).len() == 0,
{
}

/// The tab starts by size, at the top, with nothing selected, expanded or said.
pub proof fn the_tree_tab_starts_with_nothing_selected(len: nat, i: int, e: usize)
    requires
        0 <= i < len,
    ensures
        tree_view::first_state(len).size_mode,
        tree_view::first_state(len).selected.len() == len,
        !tree_view::first_state(len).selected[i],
        !tree_view::first_state(len).expanded.contains(e),
        tree_view::first_state(len).window.cursor == 0,
        tree_view::first_state(len).window.viewport == 0,
        tree_view::first_state(len).message.len() == 0,
        tree_view::first_state(len).delete_total == 0,
{
}

/// A click puts the cursor on the row and changes the selection of its entry alone; the wheel
/// changes the window alone; news of the deletions changes the message alone.
pub proof fn clicks_wheel_and_news_in_the_tree_tab(
    s: TreeState,
    view_idx: usize,
    data_idx: usize,
    delta: int,
    page: int,
    len: nat,
    running: nat,
)
    requires
        running <= s.delete_total,
    ensures
        ({
            let after = tree_view::clicked(s, view_idx, data_idx);
            &&& after.window.cursor == view_idx && after.window.viewport == s.window.viewport
            &&& differs_at(s.selected, after.selected, data_idx as int)
            &&& keeps_the_rest(s, after, true, true, false, false, false)
        }),
        ({
            let after = tree_view::scrolled_by(s, delta, page, len);
            &&& after.window == view::scrolled(
                s.window,
                delta,
                page,
                if len == 0 {
                    0
                } else {
                    len - 1
                },
            )
            &&& keeps_the_rest(s, after, true, false, false, false, false)
        }),
        ({
            let after = tree_view::polled(s, running);
            &&& keeps_the_rest(s, after, false, false, false, true, false)
            &&& after.delete_total == s.delete_total
            &&& running == 0 ==> after.message == "Done: "@ + text::decimal(s.delete_total)
                + " deleted."@
            &&& running > 0 ==> after.message == "Deleting "@ + text::decimal(
                (s.delete_total - running) as nat,
            ) + "/"@ + text::decimal(s.delete_total) + "..."@
        }),
{
}

} // verus!
