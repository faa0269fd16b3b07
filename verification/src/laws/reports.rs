//! Laws of what is shown and printed: every hit has its line, every row shows what it stands for.

use vstd::prelude::*;

use crate::junk::{HitFacts, JunkHit};
use crate::junk_view::{JunkRow, JunkState};
use crate::scan::{Node, TreeEntry};
use crate::tree::VisibleRow;
use crate::tree_view::{TreeRow, TreeState};
use crate::view::Rgb;
use crate::walker::EntryKind;
use crate::junk_view;
use crate::paths;
use crate::text;
use crate::tree_view;
use crate::view;

verus! {

/// `n` blanks.
pub open spec fn blanks(n: int) -> Seq<char> {
    Seq::new(
        if n > 0 {
            n as nat
        } else {
            0
        },
        |i: int| ' ',
    )
}

// ── The report ──────────────────────────────────────────────────────────

/// The line of a hit: its size at the right of ten columns, its ecosystem at the left of twenty-two
/// and its whole path, with blanks between them and a line end behind them.
pub open spec fn line_for(hit: HitFacts) -> Seq<char> {
    let size = text::size_text(hit.size_bytes as nat);
    blanks(2) + blanks(10 - size.len()) + size + blanks(2) + hit.ecosystem + blanks(
        22 - hit.ecosystem.len(),
    ) + blanks(1) + text::lossy_text(hit.path) + seq!['\n']
}

/// The report has a line for every hit, in the order of the hits, and no other lines between its
/// two rulers.
pub proof fn every_hit_has_its_line(hits: Seq<JunkHit>)
    ensures
        junk_view::hit_lines(hits) == Seq::new(
            hits.len(),
            |i: int| line_for(hits[i]@),
        ).flatten(),
    decreases hits.len(),
{
    let lines = Seq::new(hits.len(), |i: int| line_for(hits[i]@));
    if hits.len() > 0 {
        let front = hits.drop_last();
        every_hit_has_its_line(front);
        let before = Seq::new(front.len(), |i: int| line_for(front[i]@));
        lemma_line(hits.last()@);
        assert(lines =~= before.push(line_for(hits.last()@)));
        before.lemma_flatten_push(line_for(hits.last()@));
    } else {
        assert(junk_view::hit_lines(hits) =~= lines.flatten());
    }
}

proof fn lemma_line(hit: HitFacts)
    ensures
        junk_view::hit_line(hit) == line_for(hit),
{
    reveal_strlit("  ");
    reveal_strlit(" ");
    reveal_strlit("\n");
    assert("  "@ =~= blanks(2));
    assert(" "@ =~= blanks(1));
    assert("\n"@ =~= seq!['\n']);
    assert(junk_view::hit_line(hit) =~= line_for(hit));
}

/// The lines of two lists of hits, one behind the other, are the lines of the first and then the
/// lines of the second.
pub proof fn lines_follow_each_other(a: Seq<JunkHit>, b: Seq<JunkHit>)
    ensures
        junk_view::hit_lines(a + b) == junk_view::hit_lines(a) + junk_view::hit_lines(b),
        a.len() == 1 ==> junk_view::hit_lines(a) == line_for(a[0]@),
    decreases b.len(),
{
    if a.len() == 1 {
        lemma_line(a[0]@);
        reveal_with_fuel(junk_view::hit_lines, 2);
        assert(a.drop_last().len() == 0);
        assert(junk_view::hit_lines(a) =~= line_for(a[0]@));
    }
    if b.len() > 0 {
        assert((a + b).drop_last() =~= a + b.drop_last());
        lines_follow_each_other(a, b.drop_last());
        assert(junk_view::hit_lines(a + b) =~= junk_view::hit_lines(a) + junk_view::hit_lines(b));
    } else {
        assert(a + b =~= a);
        assert(junk_view::hit_lines(a + b) =~= junk_view::hit_lines(a) + junk_view::hit_lines(b));
    }
}

/// A line of seventy dashes behind two blanks.
pub open spec fn dashes() -> Seq<char> {
    blanks(2) + Seq::new(70, |i: int| '─')
}

/// The report says how many hits there are and what they take, lists them, and says again what
/// they take.
pub proof fn the_report_says_and_lists(hits: Seq<JunkHit>, total: nat)
    ensures
        junk_view::report(hits, total) == "\n  kosu junk finder — "@ + text::decimal(hits.len())
            + " items — "@ + text::size_text(total) + seq!['\n'] + dashes() + seq!['\n'] + Seq::new(
            hits.len(),
            |i: int| line_for(hits[i]@),
        ).flatten() + dashes() + "\n  Total: "@ + text::size_text(total) + "\n\n"@,
{
    every_hit_has_its_line(hits);
    reveal_strlit("\n");
    reveal_strlit("  ");
    assert("\n"@ =~= seq!['\n']);
    assert(junk_view::ruler() =~= dashes());
}

/// The total that the report gives is that of all hits: it grows by the size of each that joins
/// them, and is nothing where there is none.
pub proof fn the_total_is_that_of_all_hits(hits: Seq<JunkHit>, hit: JunkHit)
    ensures
        junk_view::total_size(hits.push(hit)) == junk_view::total_size(hits) + hit.size_bytes,
        junk_view::total_size(seq![]) == 0,
{
    crate::sums::lemma_total_push(hits, hit, junk_view::hit_size());
}

/// Hits are taken as they stand.
pub proof fn hits_are_taken_as_they_stand(hit: JunkHit, row: JunkRow, line: TreeRow)
    ensures
        hit@.path == hit.path@ && hit@.ecosystem == hit.ecosystem@,
        hit@.size_bytes == hit.size_bytes,
        row@.index == row.index && row@.background == row.background,
        row@.checkbox == row.checkbox@ && row@.ecosystem == row.ecosystem@,
        row@.size == row.size@ && row@.path == row.path@,
        line@.data_idx == line.data_idx && line@.background == line.background,
        line@.color == line.color && line@.checkbox == line.checkbox@,
        line@.size == line.size@ && line@.label == line.label@,
{
}

// ── Rows ────────────────────────────────────────────────────────────────

/// A window shows as many rows as there are from its first one on, and at most a page of them. A
/// cursor that is in the window and in the list is on one of the rows that are shown.
pub proof fn a_window_shows_a_page(viewport: int, page: int, len: int, cursor: int)
    requires
        0 <= viewport,
        0 <= page,
        0 <= len,
    ensures
        junk_view::shown_rows(viewport, page, len) <= page,
        viewport + junk_view::shown_rows(viewport, page, len) <= len || viewport >= len,
        viewport <= cursor < len && cursor < viewport + page ==> cursor - viewport
            < junk_view::shown_rows(viewport, page, len),
        viewport >= len ==> junk_view::shown_rows(viewport, page, len) == 0,
{
}

/// The row under the cursor stands out from all others, and rows next to each other differ.
pub proof fn the_cursor_stands_out(index: int, cursor: int)
    ensures
        index == cursor ==> view::shade_of(index, cursor) == (Rgb { r: 50, g: 50, b: 80 }),
        index != cursor && index % 2 == 0 ==> view::shade_of(index, cursor) == (Rgb {
            r: 18,
            g: 18,
            b: 28,
        }),
        index != cursor && index % 2 != 0 ==> view::shade_of(index, cursor) == (Rgb {
            r: 14,
            g: 14,
            b: 22,
        }),
        view::label_shade(true) == (Rgb { r: 60, g: 60, b: 100 }),
        view::label_shade(false) == (Rgb { r: 30, g: 30, b: 50 }),
{
}

/// A row of the junk tab shows its hit: the box is crossed exactly where the hit is selected, and
/// the ecosystem, the size and the whole path stand in it.
pub proof fn junk_rows_show_their_hit(tab: JunkState, hit: HitFacts, index: usize)
    ensures
        ({
            let row = junk_view::row_of(tab, hit, index);
            let size = text::size_text(hit.size_bytes as nat);
            &&& row.index == index
            &&& row.background == view::shade_of(index as int, tab.window.cursor as int)
            &&& index < tab.selected.len() && tab.selected[index as int] ==> row.checkbox
                == " [x] "@
            &&& !(index < tab.selected.len() && tab.selected[index as int]) ==> row.checkbox
                == " [ ] "@
            &&& row.ecosystem == hit.ecosystem + blanks(24 - hit.ecosystem.len())
            &&& row.size == blanks(10 - size.len()) + size
            &&& row.path == seq![' '] + text::lossy_text(hit.path)
        }),
{
    reveal_strlit(" ");
    assert(" "@ =~= seq![' ']);
    let row = junk_view::row_of(tab, hit, index);
    let size = text::size_text(hit.size_bytes as nat);
    assert(row.ecosystem =~= hit.ecosystem + blanks(24 - hit.ecosystem.len()));
    assert(row.size =~= blanks(10 - size.len()) + size);
}

/// The last component of a path as it is shown.
pub open spec fn shown_name(path: Seq<u8>) -> Seq<char> {
    let c = paths::components(path);
    if c.len() > 0 && c.last() is Normal {
        text::lossy_text(c.last()->Normal_0)
    } else {
        seq![]
    }
}

pub open spec fn shown_icon(kind: EntryKind) -> Seq<char> {
    if kind == EntryKind::Dir {
        "📁 "@
    } else if kind == EntryKind::Symlink {
        "🔗 "@
    } else {
        "   "@
    }
}

/// A row of the tree tab shows its entry: the row's own entry in the view by size, the entry of
/// that number in the view as a tree. The box is crossed exactly where the entry is selected. In
/// the view by size an entry at the top shows its whole path, one below a directory its name, two
/// columns further in for each step; the mark of a directory tells whether it is expanded.
pub proof fn tree_rows_show_their_entry(
    tab: TreeState,
    tree: Seq<TreeEntry>,
    rows: Seq<VisibleRow>,
    view_idx: int,
)
    requires
        0 <= view_idx <= usize::MAX,
        tab.size_mode ==> view_idx < rows.len(),
        tab.size_mode ==> rows[view_idx].data_idx < tree.len(),
        !tab.size_mode ==> view_idx < tree.len(),
    ensures
        ({
            let row = tree_view::row_of(tab, tree, rows, view_idx);
            let e = if tab.size_mode {
                rows[view_idx].data_idx as int
            } else {
                view_idx
            };
            let entry = tree[e];
            let size = text::size_text(entry.size as nat);
            let mark = if entry.kind == EntryKind::Dir {
                if tab.expanded.contains(e as usize) {
                    "▼ "@
                } else {
                    "▶ "@
                }
            } else {
                "  "@
            };
            &&& row.data_idx == e
            &&& row.background == view::shade_of(view_idx, tab.window.cursor as int)
            &&& e < tab.selected.len() && tab.selected[e] ==> row.checkbox == " [x] "@
            &&& !(e < tab.selected.len() && tab.selected[e]) ==> row.checkbox == " [ ] "@
            &&& entry.size > 0 ==> row.size == blanks(10 - size.len()) + size
            &&& entry.size == 0 ==> row.size == blanks(10)
            &&& !tab.size_mode ==> row.label == blanks(2 * entry.depth) + shown_icon(entry.kind)
                + shown_name(entry.path@)
            &&& tab.size_mode && rows[view_idx].indent == 0 ==> row.label == seq![' '] + mark
                + text::lossy_text(entry.path@)
            &&& tab.size_mode && rows[view_idx].indent > 0 ==> row.label == seq![' '] + blanks(
                2 * rows[view_idx].indent,
            ) + mark + shown_icon(entry.kind) + shown_name(entry.path@)
            &&& entry.is_junk ==> row.color == (Rgb { r: 255, g: 100, b: 100 })
            &&& !entry.is_junk && entry.kind == EntryKind::Dir ==> row.color == (Rgb {
                r: 100,
                g: 170,
                b: 255,
            })
            &&& !entry.is_junk && entry.kind == EntryKind::Symlink ==> row.color == (Rgb {
                r: 200,
                g: 150,
                b: 255,
            })
            &&& !entry.is_junk && entry.kind != EntryKind::Dir && entry.kind != EntryKind::Symlink
                ==> row.color == (Rgb { r: 180, g: 180, b: 190 })
        }),
{
    reveal_strlit(" ");
    assert(" "@ =~= seq![' ']);
    let row = tree_view::row_of(tab, tree, rows, view_idx);
    let e = if tab.size_mode {
        rows[view_idx].data_idx as int
    } else {
        view_idx
    };
    let entry = tree[e];
    let size = text::size_text(entry.size as nat);
    assert(tree_view::shown_at(tab, rows, view_idx).0 == e);
    assert(tree_view::name_text(entry.path@) =~= shown_name(entry.path@));
    assert(tree_view::icon_of(entry.kind) == shown_icon(entry.kind));
    assert(entry.size > 0 ==> row.size =~= blanks(10 - size.len()) + size);
    assert(entry.size == 0 ==> row.size =~= blanks(10));
    assert(tree_view::indentation(entry.depth as int) =~= blanks(2 * entry.depth));
    if tab.size_mode {
        assert(tree_view::indentation(rows[view_idx].indent as int) =~= blanks(
            2 * rows[view_idx].indent,
        ));
    }
}

/// The lines above and below the rows: how many there are, what they and the selection take, where
/// the cursor stands, and what there is to say.
pub proof fn headers_and_footers_say_what_they_are_told(
    len: nat,
    bytes: nat,
    by_size: bool,
    help: Seq<char>,
    cursor: nat,
    message: Seq<char>,
)
    ensures
        junk_view::items_text(len, bytes) == text::decimal(len) + " items    "@ + text::size_text(
            bytes,
        ),
        view::selection_text(len, bytes) == "Selected: "@ + text::decimal(len) + " ("@
            + text::size_text(bytes) + ")"@,
        by_size ==> tree_view::entries_text(len, by_size) == text::decimal(len)
            + " entries  ["@ + "BY SIZE"@ + "]"@ + "  l/→:expand h/←:collapse"@,
        !by_size ==> tree_view::entries_text(len, by_size) == text::decimal(len)
            + " entries  ["@ + "TREE"@ + "]"@,
        message.len() == 0 ==> view::footer_text(help, cursor, len, message) == help
            + text::decimal(cursor + 1) + "/"@ + text::decimal(len),
        message.len() > 0 ==> view::footer_text(help, cursor, len, message) == help
            + text::decimal(cursor + 1) + "/"@ + text::decimal(len) + "  │ "@ + message,
{
    reveal_strlit("");
    assert(!by_size ==> tree_view::entries_text(len, by_size) =~= text::decimal(len)
        + " entries  ["@ + "TREE"@ + "]"@);
}

/// Entries of the tree are taken as they stand.
pub proof fn entries_are_taken_as_they_stand(e: TreeEntry, node: Node)
    requires
        node == e@,
    ensures
        node.path == e.path@ && node.kind == e.kind && node.depth == e.depth,
        node.size == e.size && node.is_junk == e.is_junk,
{
}

/// The rows that are shown follow each other from the first row of the window on.
pub proof fn rows_follow_each_other(
    tab: JunkState,
    hits: Seq<JunkHit>,
    tree_tab: TreeState,
    tree: Seq<TreeEntry>,
    visible: Seq<VisibleRow>,
    page: int,
    i: int,
)
    requires
        hits.len() <= usize::MAX,
    ensures
        ({
            let rows = junk_view::shown(tab, hits, page);
            let at = tab.window.viewport + i;
            &&& rows.len() == junk_view::shown_rows(
                tab.window.viewport as int,
                page,
                hits.len() as int,
            )
            &&& 0 <= i < rows.len() && at <= usize::MAX ==> rows[i] == junk_view::row_of(
                tab,
                hits[at]@,
                at as usize,
            )
        }),
        ({
            let rows = tree_view::shown(tree_tab, tree, visible, page);
            let all = if tree_tab.size_mode {
                visible.len()
            } else {
                tree.len()
            };
            &&& rows.len() == junk_view::shown_rows(
                tree_tab.window.viewport as int,
                page,
                all as int,
            )
            &&& 0 <= i < rows.len() ==> rows[i] == tree_view::row_of(
                tree_tab,
                tree,
                visible,
                tree_tab.window.viewport + i,
            )
        }),
{
}

} // verus!
