//! What a picker shows.

use crate::graphics::{Rect, SpanView, Style};
use crate::picker::cells::{pattern_used, Drawing};
use crate::picker::layout::{counted, hint_from, hint_with, warnings, warns};
use crate::picker::list::Picker;
use crate::picker::panel::{ColumnView, FieldView, ToggleView};
use crate::picker::rows::{grown, is_drawn_cell};
use crate::text::decimal;
use vstd::arithmetic::div_mod::{lemma_fundamental_div_mod, lemma_mod_bound, lemma_mod_multiples_basic};
use vstd::prelude::*;

verus! {

/// A letter is marked where it was matched and nowhere else: it is drawn in its own style with
/// that of a match over it, or in its own alone. It comes behind what is drawn.
pub proof fn a_match_is_marked(
    drawing: Drawing,
    grapheme: Seq<char>,
    style: Style,
    matched: Seq<u32>,
    mark: Style,
)
    requires
        drawing.at < u32::MAX,
        grapheme.len() > 0,
    ensures
        ({
            let after = drawing.with_grapheme(grapheme, style, matched, mark);
            &&& matched.contains(drawing.at as u32) ==> after.style == style.spec_patch(mark)
            &&& !matched.contains(drawing.at as u32) ==> after.style == style
            &&& after.at == drawing.at + 1
            &&& after.text.len() >= grapheme.len()
            &&& after.text.skip(after.text.len() - grapheme.len()) == grapheme
            &&& after.style == drawing.style ==> after.spans == drawing.spans && after.text
                == drawing.text + grapheme
            &&& after.style != drawing.style && drawing.text.len() > 0 ==> after.spans
                == drawing.spans.push(SpanView { text: drawing.text, style: drawing.style })
                && after.text == grapheme
        }),
{
    let after = drawing.with_grapheme(grapheme, style, matched, mark);
    assert(after.text.skip(after.text.len() - grapheme.len()) =~= grapheme);
}

/// What was typed for a column marks it; where nothing was and the search is in a hidden
/// column, that search does.
pub proof fn a_cell_is_marked_by_its_search(own: Seq<char>, searched: Seq<char>)
    ensures
        pattern_used(own, None, true) == own,
        pattern_used(own, Some(searched), false) == own,
        pattern_used(own, Some(searched), true) == searched,
{
}

/// A hidden column shows nothing and takes no room; one that is not filtered by shows its cell
/// as it is; and a column is at least as wide as it was.
pub proof fn cells_show_their_columns(
    drawn: Seq<SpanView>,
    columns: Seq<ColumnView>,
    primary: int,
    i: int,
    cells: Seq<Seq<SpanView>>,
    texts: Seq<Seq<char>>,
    patterns: Seq<Seq<char>>,
    paths: bool,
    mark: Style,
    width: u16,
)
    requires
        0 <= i < columns.len(),
        is_drawn_cell(drawn, columns, primary, i, cells, texts, patterns, paths, mark),
    ensures
        columns[i].hidden ==> drawn.len() == 0 && grown(columns[i], width, drawn) == width,
        !columns[i].hidden && !columns[i].filter ==> drawn == cells[i],
        grown(columns[i], width, drawn) >= width,
{
}

/// Rows are shown a page at a time: a page begins at a multiple of the rows there is room for,
/// and the row in focus is on it.
pub proof fn rows_are_shown_by_the_page(cursor: u32, rows: int)
    requires
        rows > 0,
    ensures
        ({
            let start = Picker::page_start(cursor, rows);
            &&& 0 <= start <= cursor < start + rows
            &&& start % rows == 0
        }),
{
    lemma_mod_bound(cursor as int, rows);
    lemma_fundamental_div_mod(cursor as int, rows);
    let q = cursor as int / rows;
    assert(Picker::page_start(cursor, rows) == rows * q);
    lemma_mod_multiples_basic(q, rows);
    assert(q * rows == rows * q) by (nonlinear_arith);
    assert(q >= 0) by (nonlinear_arith)
        requires
            q == cursor as int / rows,
            rows > 0,
            cursor >= 0,
    ;
    assert(rows * q >= 0) by (nonlinear_arith)
        requires
            q >= 0,
            rows > 0,
    ;
}

/// The list has all the columns, or half of them beside a preview; there is none where it was
/// turned off or there is nothing to preview.
pub proof fn the_preview_has_the_other_half(picker: Picker, area: Rect)
    ensures
        !picker.show_preview || !picker.has_preview ==> picker.list_columns(area) == area.width,
        picker.list_columns(area) != area.width ==> picker.list_columns(area) == area.width / 2,
{
}

/// The row in focus stays one of those there are when they change, and stays where it is as
/// long as it can.
pub proof fn the_focus_stays_among_the_matches(picker: Picker, matched: u32)
    ensures
        matched > 0 ==> picker.cursor_among(true, matched) < matched,
        picker.cursor < matched ==> picker.cursor_among(true, matched) == picker.cursor,
        matched == 0 ==> picker.cursor_among(true, matched) == 0,
        picker.cursor_among(false, matched) == picker.cursor,
{
}

/// A filter that is hidden and still narrows the results is told of; one on screen, or an empty
/// one, is not.
pub proof fn a_hidden_filter_is_told(
    toggles: Seq<ToggleView>,
    fields: Seq<FieldView>,
    k: int,
    i: int,
)
    requires
        0 <= k < toggles.len(),
    ensures
        toggles[k].on ==> !warns(toggles[k], fields),
        toggles[k].warning is Some && !toggles[k].on && 0 <= i < fields.len() && fields[i].shown_by
            == Some(toggles[k].name) && fields[i].line.len() > 0 ==> warns(toggles[k], fields),
        (forall|j: int| 0 <= j < fields.len() ==> (#[trigger] fields[j]).line.len() == 0)
            ==> !warns(toggles[k], fields),
        warns(toggles[k], fields) ==> warnings(toggles, fields, (k + 1) as nat).len() > 0
            && warnings(toggles, fields, (k + 1) as nat).last() == toggles[k].warning->0,
{
}

/// What matches is counted before what there is.
pub proof fn matches_are_counted_first(matched: u32, items: u32)
    ensures
        counted(false, matched, items) == decimal(matched as nat) + "/"@ + decimal(items as nat),
        counted(true, matched, items) == "(running) "@ + counted(false, matched, items),
{
    let none = Seq::<char>::empty();
    let count = decimal(matched as nat) + "/"@ + decimal(items as nat);
    assert(counted(false, matched, items) =~= count);
    assert(counted(true, matched, items) =~= "(running) "@ + count);
}

/// The help on the border has every item that fits behind those before it, none of them cut.
pub proof fn help_is_not_cut(items: Seq<Seq<char>>, k: int, hint: Seq<char>, width: int)
    requires
        0 <= k < items.len(),
    ensures
        hint_with(hint, items[k]) == hint + " "@ + items[k] + " "@,
        hint_with(hint, items[k]).len() <= width ==> hint_from(items, k, hint, width) == hint_from(
            items,
            k + 1,
            hint_with(hint, items[k]),
            width,
        ),
        hint_with(hint, items[k]).len() > width ==> hint_from(items, k, hint, width) == hint,
{
}

} // verus!
