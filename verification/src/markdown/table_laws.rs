//! What the cells of a table show, and how its columns share the room.

use crate::graphics::SpanView;
use crate::markdown::table::{blanks, cell, cell_from, cell_style, column_width, fitting,
    lemma_fitting_columns, left_pad, pieces_columns, shrunk, total, Align, TableRowView};
use crate::markdown::wrap::{spans_text, PieceView};
use crate::text::repeated;
use crate::width::{columns, width_of_text};
use vstd::prelude::*;

verus! {

/// The text of the pieces from `p` on.
pub open spec fn text_from(pieces: Seq<PieceView>, p: int) -> Seq<char>
    decreases pieces.len() - p,
{
    if p >= pieces.len() {
        Seq::empty()
    } else {
        pieces[p].text + text_from(pieces, p + 1)
    }
}

/// The columns of the pieces from `p` on.
pub open spec fn columns_from(pieces: Seq<PieceView>, p: int) -> nat
    decreases pieces.len() - p,
{
    if p >= pieces.len() {
        0
    } else {
        columns(pieces[p].text) + columns_from(pieces, p + 1)
    }
}

proof fn lemma_text_push(spans: Seq<SpanView>, span: SpanView)
    ensures
        spans_text(spans.push(span)) == spans_text(spans) + span.text,
{
    assert(spans.push(span).drop_last() =~= spans);
}

proof fn lemma_cell_whole(
    pieces: Seq<PieceView>,
    p: int,
    used: nat,
    limit: nat,
    header: bool,
    spans: Seq<SpanView>,
)
    requires
        0 <= p <= pieces.len(),
        used + columns_from(pieces, p) <= limit,
    ensures
        ({
            let (drawn, after) = cell_from(pieces, p, used, limit, header, spans);
            &&& spans_text(drawn) == spans_text(spans) + text_from(pieces, p)
            &&& after == used + columns_from(pieces, p)
        }),
    decreases pieces.len() - p,
{
    if p < pieces.len() {
        let text = pieces[p].text;
        let style = cell_style(pieces[p].style, header);
        assert(text.subrange(0, text.len() as int) =~= text);
        lemma_fitting_columns(text, 0, used, limit);
        let more = crate::markdown::table::with_span(spans, text, style);
        if text.len() > 0 {
            lemma_text_push(spans, SpanView { text, style });
        } else {
            assert(spans_text(spans) + text =~= spans_text(spans));
        }
        assert(spans_text(more) == spans_text(spans) + text);
        lemma_cell_whole(pieces, p + 1, used + columns(text), limit, header, more);
        assert(spans_text(spans) + text + text_from(pieces, p + 1) =~= spans_text(spans)
            + text_from(pieces, p));
    } else {
        assert(spans_text(spans) + text_from(pieces, p) =~= spans_text(spans));
    }
}

proof fn lemma_measured(pieces: Seq<PieceView>, n: nat)
    requires
        n <= pieces.len(),
        forall|p: int|
            0 <= p < pieces.len() ==> width_of_text((#[trigger] pieces[p]).text) == columns(
                pieces[p].text,
            ),
    ensures
        pieces_columns(pieces, n) + columns_from(pieces, n as int) == columns_from(pieces, 0),
    decreases n,
{
    if n > 0 {
        lemma_measured(pieces, (n - 1) as nat);
        assert(width_of_text(pieces[n - 1].text) == columns(pieces[n - 1].text));
    }
}

proof fn lemma_text_front(span: SpanView, spans: Seq<SpanView>)
    ensures
        spans_text(seq![span] + spans) == span.text + spans_text(spans),
    decreases spans.len(),
{
    if spans.len() == 0 {
        assert(seq![span] + spans =~= Seq::<SpanView>::empty().push(span));
        lemma_text_push(Seq::empty(), span);
        assert(spans_text(Seq::<SpanView>::empty()) + span.text =~= span.text + spans_text(spans));
    } else {
        lemma_text_front(span, spans.drop_last());
        assert((seq![span] + spans).drop_last() =~= seq![span] + spans.drop_last());
        assert(spans_text(seq![span] + spans) =~= span.text + spans_text(spans));
    }
}

/// A cell that fits shows all of its text: at the left of its column, at its right, or in the
/// middle of it, with one blank more behind it at most, as the column aligns.
pub proof fn a_cell_that_fits_is_whole(
    pieces: Seq<PieceView>,
    width: nat,
    align: Align,
    header: bool,
)
    requires
        columns_from(pieces, 0) <= width,
        forall|p: int|
            0 <= p < pieces.len() ==> width_of_text((#[trigger] pieces[p]).text) == columns(
                pieces[p].text,
            ),
    ensures
        ({
            let pad = (width - columns_from(pieces, 0)) as nat;
            let left = match align {
                Align::Right => pad,
                Align::Center => pad / 2,
                _ => 0,
            };
            spans_text(cell(pieces, width, align, header)) == repeated(" "@, left) + text_from(
                pieces,
                0,
            ) + repeated(" "@, (pad - left) as nat)
        }),
{
    lemma_measured(pieces, pieces.len());
    assert(pieces_columns(pieces, pieces.len()) == columns_from(pieces, 0));
    lemma_cell_whole(pieces, 0, 0, width, header, Seq::empty());
    let (spans, used) = cell_from(pieces, 0, 0, width, header, Seq::empty());
    let pad = (width - used) as nat;
    let left = left_pad(pad, align);
    let text = text_from(pieces, 0);
    assert(spans_text(Seq::<SpanView>::empty()) + text =~= text);
    assert(spans_text(spans) == text);
    let none = Seq::<char>::empty();
    assert(repeated(" "@, 0) =~= none);
    let padded = if left > 0 {
        seq![blanks(left)] + spans
    } else {
        spans
    };
    lemma_text_front(blanks(left), spans);
    assert(none + text =~= text);
    assert(spans_text(padded) == repeated(" "@, left) + text);
    let right = (pad - left) as nat;
    if right > 0 {
        lemma_text_push(padded, blanks(right));
    } else {
        assert(repeated(" "@, left) + text + none =~= repeated(" "@, left) + text);
    }
}

proof fn lemma_cell_bold(
    pieces: Seq<PieceView>,
    p: int,
    used: nat,
    limit: nat,
    spans: Seq<SpanView>,
)
    requires
        0 <= p,
        forall|i: int| 0 <= i < spans.len() ==> (#[trigger] spans[i]).style.add_modifier.bold,
    ensures
        ({
            let drawn = cell_from(pieces, p, used, limit, true, spans).0;
            forall|i: int| 0 <= i < drawn.len() ==> (#[trigger] drawn[i]).style.add_modifier.bold
        }),
    decreases pieces.len() - p,
{
    if p < pieces.len() {
        let text = pieces[p].text;
        let style = cell_style(pieces[p].style, true);
        assert(style.add_modifier.bold);
        let n = fitting(text, 0, used, limit);
        if n == text.len() {
            lemma_cell_bold(
                pieces,
                p + 1,
                used + columns(text),
                limit,
                crate::markdown::table::with_span(spans, text, style),
            );
        }
    }
}

/// What stands in the cells of the header is in bold, and in those below it as it is.
pub proof fn a_header_is_bold(pieces: Seq<PieceView>, limit: nat, i: int)
    ensures
        ({
            let drawn = cell_from(pieces, 0, 0, limit, true, Seq::empty()).0;
            0 <= i < drawn.len() ==> drawn[i].style.add_modifier.bold
        }),
        pieces.len() == 1 && pieces[0].text.len() > 0 && columns(pieces[0].text) <= limit
            ==> cell_from(pieces, 0, 0, limit, false, Seq::empty()).0 == seq![
            SpanView { text: pieces[0].text, style: pieces[0].style },
        ],
{
    lemma_cell_bold(pieces, 0, 0, limit, Seq::empty());
    if pieces.len() == 1 && pieces[0].text.len() > 0 && columns(pieces[0].text) <= limit {
        let text = pieces[0].text;
        assert(text.subrange(0, text.len() as int) =~= text);
        lemma_fitting_columns(text, 0, 0, limit);
        let spans = crate::markdown::table::with_span(Seq::empty(), text, pieces[0].style);
        assert(spans =~= seq![SpanView { text, style: pieces[0].style }]);
        assert(cell_from(pieces, 1, columns(text), limit, false, spans).0 == spans);
    }
}

/// Columns that fit keep their widths, and a column is as wide as its widest cell.
pub proof fn columns_are_as_wide_as_their_cells(
    rows: Seq<TableRowView>,
    c: int,
    n: nat,
    i: int,
    widths: Seq<nat>,
    gaps: nat,
    room: nat,
)
    requires
        0 <= c,
        0 <= i < n <= rows.len(),
    ensures
        c < rows[i].0.len() ==> pieces_columns(rows[i].0[c], rows[i].0[c].len()) <= column_width(
            rows,
            c,
            n,
        ),
        total(widths) + gaps <= room ==> shrunk(widths, gaps, room) == widths,
    decreases n,
{
    if i < n - 1 {
        columns_are_as_wide_as_their_cells(rows, c, (n - 1) as nat, i, widths, gaps, room);
    }
}

} // verus!
