//! What the keys and the mouse come to in the panel a Markdown file is drawn in.

use crate::graphics::Rect;
use crate::input::{KeyCode, KeyModifiers, MouseButton, MouseEvent, MouseEventKind};
use crate::markdown::preview::{between, block_line, link_covering, link_leads, row_at,
    row_of_line, Focused, LeadsView, MarkdownPreview, PreviewTaskView, MIN_WIDTH};
use crate::markdown::sheet::RowView;
use crate::markdown::wrap::{spans_text, LinkView};
use crate::text::{blank, lemma_first, trimmed_end};
use vstd::prelude::*;

verus! {

/// The last row that can be the first on screen with the panel still full.
pub open spec fn last_first(preview: MarkdownPreview) -> int {
    if preview.rows().len() > preview.area.height {
        preview.rows().len() - preview.area.height
    } else {
        0
    }
}

/// Down shows one row more below and Up one more above, as far as there are rows; the page
/// keys and Space go on by the height of the panel less two; Home goes to the first row and End
/// to the last.
pub proof fn keys_scroll_the_preview(preview: MarkdownPreview, sees: Focused, lines: isize)
    requires
        preview.rendered is Some,
        preview.rows().len() <= isize::MAX,
        0 <= lines,
    ensures
        ({
            let at = preview.first_row(sees);
            let end = last_first(preview);
            let page = if preview.area.height >= 2 {
                preview.area.height - 2
            } else {
                0
            };
            let then = |code: KeyCode| preview.after_key(code, sees, lines).first_row(sees);
            &&& 0 <= at <= end
            &&& at < end ==> then(KeyCode::Down) == at + 1
            &&& at == end ==> then(KeyCode::Down) == at
            &&& at > 0 ==> then(KeyCode::Up) == at - 1
            &&& at == 0 ==> then(KeyCode::Up) == 0
            &&& at + page <= end ==> then(KeyCode::PageDown) == at + page && then(
                KeyCode::Char(' '),
            ) == at + page
            &&& at + page > end ==> then(KeyCode::PageDown) == end && then(KeyCode::Char(' '))
                == end
            &&& at >= page ==> then(KeyCode::PageUp) == at - page
            &&& at < page ==> then(KeyCode::PageUp) == 0
            &&& then(KeyCode::Home) == 0
            &&& then(KeyCode::End) == end
            &&& at + lines <= end ==> then(KeyCode::Char('j')) == at + lines
            &&& at >= lines ==> then(KeyCode::Char('k')) == at - lines
        }),
{
    lemma_follows(preview.rows(), sees.top_line);
}

/// Esc closes the preview; no key changes the text, the selection or where it is drawn.
pub proof fn keys_change_nothing_else(
    preview: MarkdownPreview,
    code: KeyCode,
    sees: Focused,
    lines: isize,
)
    ensures
        ({
            let after = preview.after_key(code, sees, lines);
            &&& after.full == (preview.full && code != KeyCode::Esc)
            &&& after.open == preview.open
            &&& after.rendered == preview.rendered
            &&& after.selection == preview.selection
            &&& after.area == preview.area && after.content == preview.content
            &&& code == KeyCode::Enter || code == KeyCode::Backspace || code == KeyCode::Delete
                ==> after == preview
        }),
{
}

/// The wheel turned down shows rows further down, and turned up further up, by the lines it is
/// set to, as far as there are rows; nothing is left to do.
pub proof fn the_wheel_scrolls_the_preview(
    preview: MarkdownPreview,
    event: MouseEvent,
    sees: Focused,
    tree_width: u16,
    editor_room: u16,
    lines: isize,
)
    requires
        preview.rendered is Some,
        preview.rows().len() <= usize::MAX,
        0 <= lines,
        event.kind == MouseEventKind::ScrollDown || event.kind == MouseEventKind::ScrollUp,
    ensures
        ({
            let at = preview.first_row(sees);
            let (after, taken, task) = preview.after_mouse(
                event,
                sees,
                tree_width,
                editor_room,
                lines,
            );
            let down = event.kind == MouseEventKind::ScrollDown;
            &&& taken && task == PreviewTaskView::Nothing
            &&& down && at + lines <= last_first(preview) ==> after.first_row(sees) == at + lines
            &&& down && at + lines > last_first(preview) ==> after.first_row(sees) == last_first(
                preview,
            )
            &&& !down && at >= lines ==> after.first_row(sees) == at - lines
            &&& !down && at < lines ==> after.first_row(sees) == 0
            &&& after.selection == preview.selection
        }),
{
    lemma_follows(preview.rows(), sees.top_line);
}

/// The rows scrolled to stay there until the file moves; then the preview follows the file.
pub proof fn the_preview_follows_the_file(
    preview: MarkdownPreview,
    sees: Focused,
    moved: Focused,
    delta: int,
)
    requires
        preview.rendered is Some,
        moved.doc != sees.doc || moved.top_line != sees.top_line,
    ensures
        ({
            let row = row_of_line(preview.rows(), moved.top_line);
            let end = last_first(preview);
            preview.scrolled_by(sees, delta).first_row(moved) == if row <= end {
                row
            } else {
                end
            }
        }),
{
}

proof fn lemma_block_line(rows: Seq<RowView>, n: nat, line: usize)
    requires
        n <= rows.len(),
    ensures
        block_line(rows, n, line) matches Some(start) ==> start <= line,
        forall|k: int|
            0 <= k < n && (#[trigger] rows[k]).line <= line ==> (block_line(
                rows,
                n,
                line,
            ) matches Some(start) && rows[k].line <= start),
        block_line(rows, n, line) matches Some(start) ==> exists|k: int|
            0 <= k < n && (#[trigger] rows[k]).line == start,
    decreases n,
{
    if n > 0 {
        lemma_block_line(rows, (n - 1) as nat, line);
        assert(rows[n - 1].line == rows[n - 1].line);
    }
}

proof fn lemma_row_at(rows: Seq<RowView>, k: int, line: usize)
    requires
        0 <= k <= rows.len(),
    ensures
        0 <= row_at(rows, k, line),
        rows.len() > 0 ==> row_at(rows, k, line) < rows.len(),
        rows.len() == 0 ==> row_at(rows, k, line) == 0,
        forall|i: int|
            k <= i < rows.len() && (#[trigger] rows[i]).line == line && !rows[i].blank ==> {
                let r = row_at(rows, k, line);
                k <= r <= i && rows[r].line == line && !rows[r].blank
            },
    decreases rows.len() - k,
{
    if k < rows.len() {
        lemma_row_at(rows, k + 1, line);
    }
}

proof fn lemma_follows(rows: Seq<RowView>, line: usize)
    ensures
        0 <= row_of_line(rows, line),
        rows.len() > 0 ==> row_of_line(rows, line) < rows.len(),
{
    if let Some(start) = block_line(rows, rows.len(), line) {
        lemma_row_at(rows, 0, start);
    }
}

/// The row for a line of the file is the first that is drawn from it; where none is, it is
/// none that is drawn from a line further down.
pub proof fn a_line_is_found_in_the_rows(rows: Seq<RowView>, line: usize, k: int)
    requires
        0 <= k < rows.len(),
        !rows[k].blank,
        rows[k].line <= line,
        // No row is drawn from a line in between.
        forall|i: int| 0 <= i < rows.len() ==> !(rows[k].line < (#[trigger] rows[i]).line <= line),
    ensures
        ({
            let r = row_of_line(rows, line);
            0 <= r <= k && rows[r].line == rows[k].line && !rows[r].blank
        }),
{
    lemma_block_line(rows, rows.len(), line);
    assert(rows[k].line <= line);
    let start = block_line(rows, rows.len(), line)->0;
    assert(rows[k].line <= start <= line);
    assert(start == rows[k].line) by {
        let i = choose|i: int| 0 <= i < rows.len() && (#[trigger] rows[i]).line == start;
        assert(!(rows[k].line < rows[i].line <= line));
    }
    lemma_row_at(rows, 0, start);
    assert(rows[k].line == start && !rows[k].blank);
}

// ---------------------------------------------------------------------------------------
// Clicks
// ---------------------------------------------------------------------------------------

proof fn lemma_link(links: Seq<LinkView>, k: int, i: int, at: int)
    requires
        0 <= k <= i < links.len(),
        links[i].from <= at < links[i].to,
        forall|j: int| k <= j < i ==> !((#[trigger] links[j]).from <= at < links[j].to),
    ensures
        link_covering(links, k, at) == Some(links[i].target),
    decreases i - k,
{
    if k < i {
        assert(!(links[k].from <= at < links[k].to));
        lemma_link(links, k + 1, i, at);
    }
}

proof fn lemma_no_link(links: Seq<LinkView>, k: int, at: int)
    requires
        0 <= k,
        forall|j: int| 0 <= j < links.len() ==> !((#[trigger] links[j]).from <= at < links[j].to),
    ensures
        link_covering(links, k, at) is None,
    decreases links.len() - k,
{
    if k < links.len() {
        assert(!(links[k].from <= at < links[k].to));
        lemma_no_link(links, k + 1, at);
    }
}

/// A press and a release on the same spot is a click: on a link it follows it, and anywhere
/// else it does nothing. No selection is left by it.
pub proof fn a_click_follows_the_link_under_it(
    preview: MarkdownPreview,
    event: MouseEvent,
    sees: Focused,
    tree_width: u16,
    editor_room: u16,
    lines: isize,
    link: int,
)
    requires
        preview.wf(),
        preview.rendered is Some,
        !preview.resizing,
        preview.full || event.column != preview.area.x,
        event.modifiers == KeyModifiers::spec_none(),
        preview.content.y <= event.row < preview.content.y + preview.content.height,
        preview.content.x <= event.column,
        preview.content.width > 0,
        preview.first_row(sees) + (event.row - preview.content.y) < preview.rows().len(),
    ensures
        ({
            let down = MouseEvent { kind: MouseEventKind::Down(MouseButton::Left), ..event };
            let up = MouseEvent { kind: MouseEventKind::Up(MouseButton::Left), ..event };
            let (pressed, taken, task) = preview.after_mouse(
                down,
                sees,
                tree_width,
                editor_room,
                lines,
            );
            let (after, again, done) = pressed.after_mouse(
                up,
                sees,
                tree_width,
                editor_room,
                lines,
            );
            let row = preview.rows()[preview.first_row(sees) + (event.row - preview.content.y)];
            let at = event.column - preview.content.x;
            &&& taken && again
            &&& task == PreviewTaskView::Nothing
            &&& after.selection is None && !after.selecting
            &&& 0 <= link < row.links.len() && row.links[link].from <= at < row.links[link].to && (
            forall|j: int|
                0 <= j < link ==> !((#[trigger] row.links[j]).from <= at < row.links[j].to))
                ==> done == PreviewTaskView::Follow(row.links[link].target)
            &&& (forall|j: int|
                0 <= j < row.links.len() ==> !((#[trigger] row.links[j]).from <= at
                    < row.links[j].to)) ==> done == PreviewTaskView::Nothing
        }),
{
    let row = preview.rows()[preview.first_row(sees) + (event.row - preview.content.y)];
    let at = event.column - preview.content.x;
    lemma_follows(preview.rows(), sees.top_line);
    if 0 <= link < row.links.len() && row.links[link].from <= at < row.links[link].to && (forall|
        j: int,
    |
        0 <= j < link ==> !((#[trigger] row.links[j]).from <= at < row.links[j].to)) {
        lemma_link(row.links, 0, link, at);
    }
    if forall|j: int|
        0 <= j < row.links.len() ==> !((#[trigger] row.links[j]).from <= at < row.links[j].to) {
        lemma_no_link(row.links, 0, at);
    }
}

/// A press begins a selection on the character under the pointer, or with Shift takes the end
/// of the one there is there; dragging moves only that end; and letting go copies what is
/// selected.
pub proof fn a_drag_selects_and_copies(
    preview: MarkdownPreview,
    event: MouseEvent,
    sees: Focused,
    tree_width: u16,
    editor_room: u16,
    lines: isize,
)
    requires
        preview.wf(),
        preview.rendered is Some,
        !preview.resizing,
        preview.full || event.column != preview.area.x,
        preview.content.y <= event.row < preview.content.y + preview.content.height,
        preview.content.x <= event.column < preview.content.x + preview.content.width,
        preview.first_row(sees) + (event.row - preview.content.y) < preview.rows().len(),
    ensures
        ({
            let place = (
                (preview.first_row(sees) + (event.row - preview.content.y)) as usize,
                (event.column - preview.content.x) as usize,
            );
            let (after, taken, task) = preview.after_mouse(
                event,
                sees,
                tree_width,
                editor_room,
                lines,
            );
            &&& event.kind == MouseEventKind::Down(MouseButton::Left) ==> {
                &&& taken && after.selecting
                &&& after.selection is Some && after.selection->0.head == place
                &&& event.modifiers == KeyModifiers::spec_none() ==> after.selection->0.anchor
                    == place
                &&& event.modifiers == KeyModifiers::spec_shift() && preview.selection is Some
                    ==> after.selection->0.anchor == preview.selection->0.anchor
            }
            &&& event.kind == MouseEventKind::Drag(MouseButton::Left) && preview.selecting
                && preview.selection is Some ==> {
                &&& after.selection is Some
                &&& after.selection->0.head == place
                &&& after.selection->0.anchor == preview.selection->0.anchor
                &&& taken == (preview.selection->0.head != place)
            }
            &&& event.kind == MouseEventKind::Up(MouseButton::Left) && preview.selecting
                && preview.spec_has_selection() ==> {
                &&& !after.selecting
                &&& after.selection == preview.selection
                &&& preview.spec_selected_text() matches Some(text) ==> task
                    == PreviewTaskView::Yank(text)
                &&& preview.spec_selected_text() is None ==> task == PreviewTaskView::Nothing
            }
        }),
{
    lemma_follows(preview.rows(), sees.top_line);
}

/// What is selected in one row is what stands between the two columns, whichever way it was
/// drawn, without the blanks behind it.
pub proof fn a_selection_in_a_row(preview: MarkdownPreview, row: usize, from: usize, to: usize)
    requires
        preview.selection is Some,
        row < preview.rows().len(),
        from < to,
        (preview.selection->0.anchor == (row, from) && preview.selection->0.head == (row, to)) || (
        preview.selection->0.anchor == (row, to) && preview.selection->0.head == (row, from)),
    ensures
        ({
            let text = trimmed_end(
                between(spans_text(preview.rows()[row as int].spans), 0, 0, from, to),
            );
            preview.spec_selected_text() == if blank(text) {
                None
            } else {
                Some(text)
            }
        }),
{
    let text = trimmed_end(between(spans_text(preview.rows()[row as int].spans), 0, 0, from, to));
    let none = Seq::<char>::empty();
    assert(none + text + none =~= text);
    reveal_with_fuel(crate::markdown::preview::lines_between, 2);
}

/// What is selected over two rows is the end of the one and the beginning of the other, on
/// lines of their own.
pub proof fn a_selection_over_two_rows(
    preview: MarkdownPreview,
    row: usize,
    next: usize,
    from: usize,
    to: usize,
)
    requires
        preview.selection is Some,
        next == row + 1,
        next < preview.rows().len(),
        preview.selection->0.anchor == (row, from),
        preview.selection->0.head == (next, to),
    ensures
        ({
            let above = trimmed_end(
                between(spans_text(preview.rows()[row as int].spans), 0, 0, from, usize::MAX),
            );
            let below = trimmed_end(
                between(spans_text(preview.rows()[row + 1].spans), 0, 0, 0, to),
            );
            let text = above + seq!['\n'] + below;
            preview.spec_selected_text() == if blank(text) {
                None
            } else {
                Some(text)
            }
        }),
{
    let above = trimmed_end(
        between(spans_text(preview.rows()[row as int].spans), 0, 0, from, usize::MAX),
    );
    let below = trimmed_end(between(spans_text(preview.rows()[row + 1].spans), 0, 0, 0, to));
    let none = Seq::<char>::empty();
    reveal_with_fuel(crate::markdown::preview::lines_between, 3);
    assert(none + above + (seq!['\n'] + below + none) =~= above + seq!['\n'] + below);
}

/// The separator is dragged to the pointer, as long as what is right of it is worth drawing
/// and the file keeps its room; letting it go remembers the width.
pub proof fn the_separator_goes_to_the_pointer(
    preview: MarkdownPreview,
    event: MouseEvent,
    sees: Focused,
    tree_width: u16,
    editor_room: u16,
    lines: isize,
)
    requires
        preview.wf(),
        preview.area.width + tree_width <= u16::MAX,
    ensures
        ({
            let (after, taken, task) = preview.after_mouse(
                event,
                sees,
                tree_width,
                editor_room,
                lines,
            );
            let right = preview.area.x + preview.area.width;
            &&& event.kind == MouseEventKind::Down(MouseButton::Left) && !preview.full
                && event.column == preview.area.x ==> taken && after.resizing && after.selection
                == preview.selection
            &&& event.kind == MouseEventKind::Drag(MouseButton::Left) && preview.resizing ==> {
                &&& taken && after.width is Some
                &&& after.width->0 >= MIN_WIDTH
                &&& after.width->0 == MIN_WIDTH || after.width->0 + editor_room
                    <= preview.area.width + tree_width
                &&& event.column <= right && right - event.column >= MIN_WIDTH && right
                    - event.column + editor_room <= preview.area.width + tree_width
                    ==> after.width->0 == right - event.column
            }
            &&& event.kind == MouseEventKind::Up(MouseButton::Left) && preview.resizing ==> {
                &&& taken && !after.resizing
                &&& preview.width matches Some(width) ==> task == PreviewTaskView::SaveWidth(width)
            }
        }),
{
}

/// The preview takes no room while it is closed or the file is none it draws, and otherwise
/// leaves the file its room and is never too narrow to read.
pub proof fn the_file_keeps_its_room(
    preview: MarkdownPreview,
    markdown: bool,
    area: Rect,
    editor_room: u16,
)
    ensures
        ({
            let taken = preview.taken(markdown, area, editor_room);
            &&& !preview.open || !markdown ==> taken == 0
            &&& taken > 0 ==> taken >= MIN_WIDTH && taken + editor_room <= area.width
            &&& preview.open && markdown ==> (preview.width matches Some(width) ==> (width
                >= MIN_WIDTH && width + editor_room <= area.width ==> taken == width))
            &&& preview.open && markdown && preview.width is None && area.width / 2 >= MIN_WIDTH
                && area.width / 2 + editor_room <= area.width ==> taken == area.width / 2
        }),
{
}

/// Shown and hidden again, the preview is as it was but for its scroll; it is never shown for a
/// file that is no Markdown, and can always be hidden.
pub proof fn shown_and_hidden_again(preview: MarkdownPreview, markdown: bool)
    ensures
        ({
            let (once, could) = preview.toggled(markdown);
            let (twice, _) = once.toggled(markdown);
            &&& could <==> preview.open || markdown
            &&& could ==> once.open == !preview.open
            &&& once.full == preview.full
            &&& markdown ==> twice.open == preview.open
            &&& !could ==> once == preview
        }),
        ({
            let (once, could) = preview.toggled_full(markdown);
            &&& could <==> preview.full || markdown
            &&& could ==> once.full == !preview.full
            &&& once.open == preview.open
            &&& !could ==> once == preview
        }),
{
}

/// A link leads to the file in front of its first `#` and there to the heading behind it:
/// together they are the link. A URL leads outside, and nothing else does.
pub proof fn a_link_is_a_path_and_an_anchor(target: Seq<char>, url: bool)
    ensures
        link_leads(target, url) is Outside <==> url,
        link_leads(target, url) matches LeadsView::Inside { path, anchor } ==> {
            &&& !path.contains('#')
            &&& anchor matches Some(name) ==> path + seq!['#'] + name == target
            &&& anchor is None ==> path == target
        },
{
    lemma_first(target, '#', 0);
    if let LeadsView::Inside { path, anchor } = link_leads(target, url) {
        assert(!path.contains('#')) by {
            if path.contains('#') {
                let i = choose|i: int| 0 <= i < path.len() && path[i] == '#';
                assert(target[i] == '#');
            }
        }
        if let Some(name) = anchor {
            assert(path + seq!['#'] + name =~= target);
        }
    }
}

} // verus!
