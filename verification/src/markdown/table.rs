//! Tables: how wide their columns are, and how a cell fills its own.

use crate::graphics::{less, Span, SpanView, Style};
use crate::markdown::wrap::{spans_text, Piece, PieceView};
use crate::text::{append_repeated, append_str, chars, repeated, string, trim_end, trimmed_end};
use crate::width::{columns, glyph_columns, glyph_width, lemma_columns_joined, lemma_columns_push,
    text_width, width_of_text};
use vstd::prelude::*;
use vstd::slice::slice_subrange;

verus! {

#[derive(Debug, Clone, Copy, PartialEq, Eq, Structural)]
pub enum Align {
    Unset,
    Left,
    Center,
    Right,
}

/// The columns the texts of pieces take, each measured as a whole.
pub open spec fn pieces_columns(pieces: Seq<PieceView>, n: nat) -> nat
    decreases n,
{
    if n == 0 {
        0
    } else {
        pieces_columns(pieces, (n - 1) as nat) + width_of_text(pieces[n - 1].text) as nat
    }
}

pub fn pieces_width(pieces: &Vec<Piece>) -> (r: u128)
    ensures
        r == pieces_columns(pieces.deep_view(), pieces@.len()),
{
    let mut sum: u128 = 0;
    let mut n: usize = 0;
    while n < pieces.len()
        invariant
            n <= pieces@.len(),
            sum == pieces_columns(pieces.deep_view(), n as nat),
            sum <= n * 0xffff_ffff_ffff_ffff,
        decreases pieces@.len() - n,
    {
        proof {
            assert(pieces.deep_view()[n as int].text == pieces@[n as int].text@);
        }
        sum = sum + text_width(pieces[n].text.as_str()) as u128;
        n = n + 1;
    }
    sum
}

// ---------------------------------------------------------------------------------------
// A cell
// ---------------------------------------------------------------------------------------

/// The first character from `k` on that does not fit once `used` of `limit` columns are
/// taken, or the end.
pub open spec fn fitting(text: Seq<char>, k: int, used: nat, limit: nat) -> int
    decreases text.len() - k,
{
    if k >= text.len() {
        text.len() as int
    } else if used + glyph_columns(text[k]) > limit {
        k
    } else {
        fitting(text, k + 1, used + glyph_columns(text[k]), limit)
    }
}

pub open spec fn with_span(spans: Seq<SpanView>, text: Seq<char>, style: Style) -> Seq<SpanView> {
    if text.len() == 0 {
        spans
    } else {
        spans.push(SpanView { text, style })
    }
}

pub open spec fn cell_style(style: Style, header: bool) -> Style {
    if header {
        style.spec_bold()
    } else {
        style
    }
}

/// The spans of the pieces from `p` on, and the columns used: up to `limit`, where the text
/// is cut with an ellipsis. "a very…", never "a very …".
pub open spec fn cell_from(
    pieces: Seq<PieceView>,
    p: int,
    used: nat,
    limit: nat,
    header: bool,
    spans: Seq<SpanView>,
) -> (Seq<SpanView>, nat)
    decreases pieces.len() - p,
{
    if p >= pieces.len() {
        (spans, used)
    } else {
        let text = pieces[p].text;
        let style = cell_style(pieces[p].style, header);
        let n = fitting(text, 0, used, limit);
        if n == text.len() {
            cell_from(
                pieces,
                p + 1,
                used + columns(text),
                limit,
                header,
                with_span(spans, text, style),
            )
        } else {
            let kept = trimmed_end(text.subrange(0, n));
            (
                with_span(spans, kept, style).push(SpanView { text: "…"@, style }),
                used + columns(kept) + 1,
            )
        }
    }
}

pub open spec fn blanks(n: nat) -> SpanView {
    SpanView { text: repeated(" "@, n), style: Style::spec_plain() }
}

/// The columns of padding to the left, of `pad`.
pub open spec fn left_pad(pad: nat, alignment: Align) -> nat {
    match alignment {
        Align::Right => pad,
        Align::Center => pad / 2,
        Align::Left | Align::Unset => 0,
    }
}

/// A cell's text in exactly `width` columns: padded as the column aligns, or cut with an
/// ellipsis when it does not fit.
pub open spec fn cell(pieces: Seq<PieceView>, width: nat, alignment: Align, header: bool)
    -> Seq<SpanView> {
    let limit = if pieces_columns(pieces, pieces.len()) <= width {
        width
    } else {
        less(width as int, 1) as nat
    };
    let (spans, used) = cell_from(pieces, 0, 0, limit, header, Seq::empty());
    let pad = less(width as int, used as int) as nat;
    let left = left_pad(pad, alignment);
    let padded = if left > 0 {
        seq![blanks(left)] + spans
    } else {
        spans
    };
    if pad - left > 0 {
        padded.push(blanks((pad - left) as nat))
    } else {
        padded
    }
}

proof fn lemma_fitting(text: Seq<char>, k: int, used: nat, limit: nat)
    requires
        0 <= k <= text.len(),
    ensures
        k <= fitting(text, k, used, limit) <= text.len(),
    decreases text.len() - k,
{
    if k < text.len() && used + glyph_columns(text[k]) <= limit {
        lemma_fitting(text, k + 1, used + glyph_columns(text[k]), limit);
    }
}

fn push_span(spans: &mut Vec<Span>, text: &[char], style: Style)
    ensures
        final(spans).deep_view() == with_span(old(spans).deep_view(), text@, style),
{
    let ghost before = spans.deep_view();
    if text.len() > 0 {
        spans.push(Span::styled(string(text), style));
        proof {
            assert(spans.deep_view() =~= before.push(SpanView { text: text@, style }));
        }
    }
}

fn blank_span(n: usize) -> (r: Span)
    ensures
        r.deep_view() == blanks(n as nat),
{
    let mut text: Vec<char> = Vec::new();
    let space: Vec<char> = chars(" ");
    append_repeated(&mut text, space.as_slice(), n);
    proof {
        assert(text@ =~= repeated(" "@, n as nat));
    }
    Span::styled(string(text.as_slice()), Style::plain())
}

/// How many columns a short text takes, each of its characters on its own.
fn columns_within(text: &[char], limit: usize) -> (r: usize)
    requires
        columns(text@) <= limit,
    ensures
        r == columns(text@),
{
    let mut sum: usize = 0;
    let mut i: usize = 0;
    proof {
        assert(text@.subrange(0, text@.len() as int) =~= text@);
    }
    while i < text.len()
        invariant
            i <= text@.len(),
            columns(text@) <= limit,
            sum == columns(text@.subrange(0, i as int)),
        decreases text@.len() - i,
    {
        proof {
            let part = text@.subrange(0, i as int);
            assert(text@.subrange(0, i + 1) =~= part.push(text@[i as int]));
            lemma_columns_push(part, text@[i as int]);
            lemma_columns_prefix(text@, i + 1);
        }
        sum = sum + glyph_width(text[i]);
        i = i + 1;
    }
    proof {
        assert(text@.subrange(0, i as int) =~= text@);
    }
    sum
}

proof fn lemma_columns_prefix(text: Seq<char>, n: int)
    requires
        0 <= n <= text.len(),
    ensures
        columns(text.subrange(0, n)) <= columns(text),
    decreases text.len() - n,
{
    if n < text.len() {
        lemma_columns_prefix(text, n + 1);
        assert(text.subrange(0, n + 1) =~= text.subrange(0, n).push(text[n]));
        lemma_columns_push(text.subrange(0, n), text[n]);
    } else {
        assert(text.subrange(0, n) =~= text);
    }
}

/// A cell's text in exactly `width` columns: padded as the column aligns, or cut with an
/// ellipsis when it does not fit.
pub fn fit_cell(pieces: &Vec<Piece>, width: usize, alignment: Align, header: bool) -> (r: Vec<
    Span,
>)
    requires
        width < usize::MAX - 2,
    ensures
        r.deep_view() == cell(pieces.deep_view(), width as nat, alignment, header),
{
    let ghost all = pieces.deep_view();
    let mut spans: Vec<Span> = Vec::new();
    let mut used: usize = 0;
    let limit: usize = if pieces_width(pieces) <= width as u128 {
        width
    } else {
        width.saturating_sub(1)
    };
    let mut p: usize = 0;
    let ghost done = cell_from(all, 0, 0, limit as nat, header, Seq::empty());
    proof {
        assert(spans.deep_view() =~= Seq::empty());
    }
    while p < pieces.len()
        invariant_except_break
            used <= limit,
            done == cell_from(all, p as int, used as nat, limit as nat, header, spans.deep_view()),
        invariant
            p <= pieces@.len(),
            all == pieces.deep_view(),
            limit <= width < usize::MAX - 2,
        ensures
            done == (spans.deep_view(), used as nat),
        decreases pieces@.len() - p,
    {
        let piece: &Piece = &pieces[p];
        proof {
            assert(all[p as int] == piece.deep_view());
        }
        let style: Style = if header {
            piece.style.bold()
        } else {
            piece.style
        };
        let text: Vec<char> = chars(piece.text.as_str());
        let mut after: usize = used;
        let mut n: usize = 0;
        proof {
            assert(columns(text@.subrange(0, 0)) == 0);
        }
        while n < text.len() && glyph_width(text[n]) <= limit - after
            invariant
                n <= text@.len(),
                used <= after <= limit,
                limit < usize::MAX - 2,
                after == used + columns(text@.subrange(0, n as int)),
                fitting(text@, 0, used as nat, limit as nat) == fitting(
                    text@,
                    n as int,
                    after as nat,
                    limit as nat,
                ),
            decreases text@.len() - n,
        {
            proof {
                let part = text@.subrange(0, n as int);
                assert(text@.subrange(0, n + 1) =~= part.push(text@[n as int]));
                lemma_columns_push(part, text@[n as int]);
            }
            after = after + glyph_width(text[n]);
            n = n + 1;
        }
        if n < text.len() {
            let cut: &[char] = slice_subrange(text.as_slice(), 0, n);
            let kept: &[char] = trim_end(cut);
            proof {
                lemma_trim_columns(cut@);
            }
            used = used + columns_within(kept, limit) + 1;
            push_span(&mut spans, kept, style);
            let ghost before = spans.deep_view();
            let ellipsis: Span = Span::styled("…".to_string(), style);
            spans.push(ellipsis);
            proof {
                assert(spans.deep_view() =~= before.push(ellipsis.deep_view()));
            }
            break ;
        }
        proof {
            assert(text@.subrange(0, n as int) =~= text@);
        }
        used = after;
        push_span(&mut spans, text.as_slice(), style);
        p = p + 1;
    }
    let pad: usize = width.saturating_sub(used);
    let left: usize = match alignment {
        Align::Right => pad,
        Align::Center => pad / 2,
        Align::Left | Align::Unset => 0,
    };
    let ghost plain = spans.deep_view();
    if left > 0 {
        let before: Span = blank_span(left);
        spans.insert(0, before);
        proof {
            assert(spans.deep_view() =~= seq![before.deep_view()] + plain);
        }
    }
    let ghost padded = spans.deep_view();
    if pad - left > 0 {
        let after: Span = blank_span(pad - left);
        spans.push(after);
        proof {
            assert(spans.deep_view() =~= padded.push(after.deep_view()));
        }
    }
    spans
}

proof fn lemma_trim_columns(text: Seq<char>)
    ensures
        columns(trimmed_end(text)) <= columns(text),
{
    crate::text::lemma_space_before(text, text.len() as int);
    lemma_columns_prefix(text, crate::text::space_before(text, text.len() as int));
}

/// The columns of the text of spans.
spec fn span_columns(spans: Seq<SpanView>) -> nat {
    columns(spans_text(spans))
}

proof fn lemma_span_columns(spans: Seq<SpanView>, span: SpanView)
    ensures
        span_columns(spans.push(span)) == span_columns(spans) + columns(span.text),
{
    assert(spans.push(span).drop_last() =~= spans);
    lemma_columns_joined(spans_text(spans), span.text);
}

proof fn lemma_spans_joined(a: Seq<SpanView>, b: Seq<SpanView>)
    ensures
        span_columns(a + b) == span_columns(a) + span_columns(b),
    decreases b.len(),
{
    if b.len() == 0 {
        assert(a + b =~= a);
    } else {
        lemma_spans_joined(a, b.drop_last());
        assert(a + b =~= (a + b.drop_last()).push(b.last()));
        assert(b =~= b.drop_last().push(b.last()));
        lemma_span_columns(a + b.drop_last(), b.last());
        lemma_span_columns(b.drop_last(), b.last());
    }
}

proof fn lemma_with_span(spans: Seq<SpanView>, text: Seq<char>, style: Style)
    ensures
        span_columns(with_span(spans, text, style)) == span_columns(spans) + columns(text),
{
    if text.len() > 0 {
        lemma_span_columns(spans, SpanView { text, style });
    }
}

/// What fits is within the limit, and all of a text that is within it fits.
pub proof fn lemma_fitting_columns(text: Seq<char>, k: int, used: nat, limit: nat)
    requires
        0 <= k <= text.len(),
        used <= limit,
    ensures
        ({
            let n = fitting(text, k, used, limit);
            &&& k <= n <= text.len()
            &&& used + columns(text.subrange(k, n)) <= limit
            &&& used + columns(text.subrange(k, text.len() as int)) <= limit ==> n == text.len()
        }),
    decreases text.len() - k,
{
    if k >= text.len() {
        assert(text.subrange(k, text.len() as int) =~= Seq::<char>::empty());
    } else {
        let one = seq![text[k]];
        let rest = text.subrange(k + 1, text.len() as int);
        assert(one.drop_last() =~= Seq::<char>::empty());
        assert(columns(one.drop_last()) == 0);
        assert(text.subrange(k, text.len() as int) =~= one + rest);
        lemma_columns_joined(one, rest);
        if used + glyph_columns(text[k]) > limit {
            assert(text.subrange(k, k) =~= Seq::<char>::empty());
        } else {
            lemma_fitting_columns(text, k + 1, used + glyph_columns(text[k]), limit);
            let n = fitting(text, k + 1, used + glyph_columns(text[k]), limit);
            assert(text.subrange(k, n) =~= one + text.subrange(k + 1, n));
            lemma_columns_joined(one, text.subrange(k + 1, n));
        }
    }
}

/// The columns of the pieces from `p` on, character by character.
spec fn letters_columns(pieces: Seq<PieceView>, p: int) -> nat
    decreases pieces.len() - p,
{
    if p >= pieces.len() {
        0
    } else {
        columns(pieces[p].text) + letters_columns(pieces, p + 1)
    }
}

proof fn lemma_cell_from(
    pieces: Seq<PieceView>,
    p: int,
    used: nat,
    limit: nat,
    header: bool,
    spans: Seq<SpanView>,
)
    requires
        0 <= p <= pieces.len(),
        used <= limit,
        glyph_columns('…') == 1,
    ensures
        ({
            let (drawn, after) = cell_from(pieces, p, used, limit, header, spans);
            &&& span_columns(drawn) == span_columns(spans) + (after - used)
            &&& used <= after <= limit + 1
            &&& used + letters_columns(pieces, p) <= limit ==> after <= limit
        }),
    decreases pieces.len() - p,
{
    if p < pieces.len() {
        let text = pieces[p].text;
        let style = cell_style(pieces[p].style, header);
        let n = fitting(text, 0, used, limit);
        lemma_fitting_columns(text, 0, used, limit);
        assert(text.subrange(0, text.len() as int) =~= text);
        if n == text.len() {
            lemma_with_span(spans, text, style);
            lemma_cell_from(
                pieces,
                p + 1,
                used + columns(text),
                limit,
                header,
                with_span(spans, text, style),
            );
        } else {
            let kept = trimmed_end(text.subrange(0, n));
            let dots = "…"@;
            reveal_strlit("…");
            assert(dots =~= seq!['…']);
            assert(dots.drop_last() =~= Seq::<char>::empty());
            assert(columns(dots.drop_last()) == 0);
            assert(columns(dots) == 1);
            lemma_with_span(spans, kept, style);
            lemma_span_columns(
                with_span(spans, kept, style),
                SpanView { text: dots, style },
            );
            lemma_trim_columns(text.subrange(0, n));
        }
    }
}

proof fn lemma_blanks(n: nat)
    requires
        glyph_columns(' ') == 1,
    ensures
        columns(repeated(" "@, n)) == n,
    decreases n,
{
    if n > 0 {
        let space = " "@;
        reveal_strlit(" ");
        assert(space =~= seq![' ']);
        assert(space.drop_last() =~= Seq::<char>::empty());
        assert(columns(space.drop_last()) == 0);
        lemma_blanks((n - 1) as nat);
        lemma_columns_joined(repeated(" "@, (n - 1) as nat), space);
    }
}

proof fn lemma_letters(pieces: Seq<PieceView>, n: nat)
    requires
        n <= pieces.len(),
        forall|p: int|
            0 <= p < pieces.len() ==> width_of_text((#[trigger] pieces[p]).text) == columns(
                pieces[p].text,
            ),
    ensures
        pieces_columns(pieces, n) + letters_columns(pieces, n as int) == letters_columns(pieces, 0),
    decreases n,
{
    if n > 0 {
        lemma_letters(pieces, (n - 1) as nat);
        assert(width_of_text(pieces[n - 1].text) == columns(pieces[n - 1].text));
    }
}

/// A cell fills its column exactly, whatever its text and however it aligns. A blank and an
/// ellipsis take one column each, and a text as many as its characters together.
pub proof fn a_cell_fills_its_column(
    pieces: Seq<PieceView>,
    width: nat,
    align: Align,
    header: bool,
)
    requires
        width >= 1,
        glyph_columns(' ') == 1,
        glyph_columns('…') == 1,
        forall|p: int|
            0 <= p < pieces.len() ==> width_of_text((#[trigger] pieces[p]).text) == columns(
                pieces[p].text,
            ),
    ensures
        columns(spans_text(cell(pieces, width, align, header))) == width,
{
    let fits = pieces_columns(pieces, pieces.len()) <= width;
    let limit = if fits {
        width
    } else {
        (width - 1) as nat
    };
    lemma_cell_from(pieces, 0, 0, limit, header, Seq::empty());
    lemma_letters(pieces, pieces.len());
    let (spans, used) = cell_from(pieces, 0, 0, limit, header, Seq::empty());
    assert(span_columns(Seq::<SpanView>::empty()) == 0);
    let pad = (width - used) as nat;
    let left = left_pad(pad, align);
    lemma_blanks(left);
    lemma_blanks((pad - left) as nat);
    let padded = if left > 0 {
        seq![blanks(left)] + spans
    } else {
        spans
    };
    let lead = seq![blanks(left)];
    assert(lead =~= Seq::<SpanView>::empty().push(blanks(left)));
    lemma_span_columns(Seq::empty(), blanks(left));
    lemma_spans_joined(lead, spans);
    lemma_span_columns(padded, blanks((pad - left) as nat));
}

// ---------------------------------------------------------------------------------------
// The widths of columns
// ---------------------------------------------------------------------------------------

/// A row's cells, and the line of the file it starts on.
pub type TableRow = (Vec<Vec<Piece>>, usize);

pub type TableRowView = (Seq<Seq<PieceView>>, usize);

/// The most cells that one of the first `n` rows has.
pub open spec fn most_cells(rows: Seq<TableRowView>, n: nat) -> nat
    decreases n,
{
    if n == 0 {
        0
    } else if rows[n - 1].0.len() > most_cells(rows, (n - 1) as nat) {
        rows[n - 1].0.len()
    } else {
        most_cells(rows, (n - 1) as nat)
    }
}

/// The widest that column `c` is in the first `n` rows.
pub open spec fn column_width(rows: Seq<TableRowView>, c: int, n: nat) -> nat
    decreases n,
{
    if n == 0 {
        0
    } else {
        let before = column_width(rows, c, (n - 1) as nat);
        let cells = rows[n - 1].0;
        if c < cells.len() && pieces_columns(cells[c], cells[c].len()) > before {
            pieces_columns(cells[c], cells[c].len())
        } else {
            before
        }
    }
}

pub open spec fn column_widths(rows: Seq<TableRowView>) -> Seq<nat> {
    Seq::new(most_cells(rows, rows.len()), |c: int| column_width(rows, c, rows.len()))
}

/// The widest of the first `n` columns, the last of them where several are.
pub open spec fn widest(widths: Seq<nat>, n: nat) -> int
    decreases n,
{
    if n <= 1 {
        0
    } else if widths[n - 1] >= widths[widest(widths, (n - 1) as nat)] {
        n - 1
    } else {
        widest(widths, (n - 1) as nat)
    }
}

pub open spec fn total(widths: Seq<nat>) -> nat
    decreases widths.len(),
{
    if widths.len() == 0 {
        0
    } else {
        total(widths.drop_last()) + widths.last()
    }
}

/// The widths of columns that are to fit in `room` with `gaps` columns between them: while
/// they do not, the widest column gives a column, as long as it has more than one.
pub open spec fn shrunk(widths: Seq<nat>, gaps: nat, room: nat) -> Seq<nat>
    decreases total(widths),
    via shrunk_gives
{
    let at = widest(widths, widths.len());
    if widths.len() > 0 && total(widths) + gaps > room && widths[at] > 1 {
        shrunk(widths.update(at, (widths[at] - 1) as nat), gaps, room)
    } else {
        widths
    }
}

#[via_fn]
proof fn shrunk_gives(widths: Seq<nat>, gaps: nat, room: nat) {
    let at = widest(widths, widths.len());
    if widths.len() > 0 {
        lemma_widest(widths, widths.len());
        if widths[at] > 1 {
            lemma_total_update(widths, at, (widths[at] - 1) as nat);
        }
    }
}

proof fn lemma_widest(widths: Seq<nat>, n: nat)
    requires
        0 < n <= widths.len(),
    ensures
        0 <= widest(widths, n) < n,
        forall|i: int| 0 <= i < n ==> #[trigger] widths[i] <= widths[widest(widths, n)],
    decreases n,
{
    if n > 1 {
        lemma_widest(widths, (n - 1) as nat);
    }
}

proof fn lemma_total_update(widths: Seq<nat>, at: int, to: nat)
    requires
        0 <= at < widths.len(),
    ensures
        total(widths.update(at, to)) == total(widths) - widths[at] + to,
    decreases widths.len(),
{
    let next = widths.update(at, to);
    if at == widths.len() - 1 {
        assert(next.drop_last() =~= widths.drop_last());
    } else {
        lemma_total_update(widths.drop_last(), at, to);
        assert(next.drop_last() =~= widths.drop_last().update(at, to));
    }
}

/// The widths as they are drawn: once they are no longer than the room, or one column each.
proof fn lemma_shrunk(widths: Seq<nat>, gaps: nat, room: nat)
    ensures
        shrunk(widths, gaps, room).len() == widths.len(),
        widths.len() > 0 ==> total(shrunk(widths, gaps, room)) + gaps <= room || forall|i: int|
            0 <= i < widths.len() ==> #[trigger] shrunk(widths, gaps, room)[i] <= 1,
    decreases total(widths),
{
    let at = widest(widths, widths.len());
    if widths.len() > 0 {
        lemma_widest(widths, widths.len());
        if total(widths) + gaps > room && widths[at] > 1 {
            let next = widths.update(at, (widths[at] - 1) as nat);
            lemma_total_update(widths, at, (widths[at] - 1) as nat);
            lemma_shrunk(next, gaps, room);
        }
    }
}

/// A table that can be drawn in the room there is, is: its columns with their borders are
/// no wider than the room, unless every column is down to one.
pub proof fn columns_fit_the_room(widths: Seq<nat>, room: nat)
    requires
        widths.len() > 0,
    ensures
        ({
            let gaps = (3 * (widths.len() - 1)) as nat;
            let drawn = shrunk(widths, gaps, room);
            &&& drawn.len() == widths.len()
            &&& total(drawn) + gaps <= room || forall|i: int|
                0 <= i < drawn.len() ==> #[trigger] drawn[i] <= 1
        }),
{
    lemma_shrunk(widths, (3 * (widths.len() - 1)) as nat, room);
}

proof fn lemma_total_bounds(widths: Seq<nat>, i: int)
    requires
        0 <= i < widths.len(),
    ensures
        widths[i] <= total(widths),
    decreases widths.len(),
{
    if i < widths.len() - 1 {
        lemma_total_bounds(widths.drop_last(), i);
    }
}

spec fn numbers(widths: Seq<u128>) -> Seq<nat> {
    widths.map_values(|n: u128| n as nat)
}

fn count_columns(rows: &Vec<TableRow>) -> (r: usize)
    ensures
        r == most_cells(rows.deep_view(), rows@.len()),
{
    let mut most: usize = 0;
    let mut n: usize = 0;
    while n < rows.len()
        invariant
            n <= rows@.len(),
            most == most_cells(rows.deep_view(), n as nat),
        decreases rows@.len() - n,
    {
        proof {
            assert(rows.deep_view()[n as int].0.len() == rows@[n as int].0@.len());
        }
        if rows[n].0.len() > most {
            most = rows[n].0.len();
        }
        n = n + 1;
    }
    most
}

fn measure_column(rows: &Vec<TableRow>, c: usize) -> (r: u128)
    ensures
        r == column_width(rows.deep_view(), c as int, rows@.len()),
{
    let mut most: u128 = 0;
    let mut n: usize = 0;
    while n < rows.len()
        invariant
            n <= rows@.len(),
            most == column_width(rows.deep_view(), c as int, n as nat),
        decreases rows@.len() - n,
    {
        let cells: &Vec<Vec<Piece>> = &rows[n].0;
        proof {
            assert(rows.deep_view()[n as int].0 == cells.deep_view());
        }
        if c < cells.len() {
            let width: u128 = pieces_width(&cells[c]);
            proof {
                assert(cells.deep_view()[c as int] == cells@[c as int].deep_view());
            }
            if width > most {
                most = width;
            }
        }
        n = n + 1;
    }
    most
}

/// The sum of widths, which stops at the largest number.
fn sum_widths(widths: &Vec<u128>) -> (r: u128)
    ensures
        r == total(numbers(widths@)) || (r == u128::MAX && total(numbers(widths@)) >= u128::MAX),
{
    let mut sum: u128 = 0;
    let mut i: usize = 0;
    proof {
        assert(numbers(widths@).take(0) =~= Seq::empty());
    }
    while i < widths.len()
        invariant
            i <= widths@.len(),
            sum == total(numbers(widths@).take(i as int)) || (sum == u128::MAX && total(
                numbers(widths@).take(i as int),
            ) >= u128::MAX),
        decreases widths@.len() - i,
    {
        proof {
            let all = numbers(widths@);
            assert(all.take(i + 1).drop_last() =~= all.take(i as int));
        }
        sum = sum.saturating_add(widths[i]);
        i = i + 1;
    }
    proof {
        assert(numbers(widths@).take(i as int) =~= numbers(widths@));
    }
    sum
}

fn find_widest(widths: &Vec<u128>) -> (r: usize)
    requires
        widths@.len() > 0,
    ensures
        r == widest(numbers(widths@), widths@.len()),
        r < widths@.len(),
{
    let mut at: usize = 0;
    let mut n: usize = 1;
    while n < widths.len()
        invariant
            1 <= n <= widths@.len(),
            at < n,
            at == widest(numbers(widths@), n as nat),
        decreases widths@.len() - n,
    {
        if widths[n] >= widths[at] {
            at = n;
        }
        n = n + 1;
    }
    at
}

/// How wide each column of a table is drawn.
pub fn fit_columns(rows: &Vec<TableRow>, room: usize) -> (r: Vec<usize>)
    requires
        room <= u16::MAX,
    ensures
        ({
            let widths = column_widths(rows.deep_view());
            &&& r@.len() == widths.len()
            &&& widths.len() > 0 ==> r@.map_values(|n: usize| n as nat) == shrunk(
                widths,
                (3 * (widths.len() - 1)) as nat,
                room as nat,
            )
            &&& forall|i: int| 0 <= i < r@.len() ==> #[trigger] r@[i] <= u16::MAX
        }),
{
    let count: usize = count_columns(rows);
    let mut widths: Vec<u128> = Vec::new();
    while widths.len() < count
        invariant
            widths@.len() <= count,
            forall|c: int|
                0 <= c < widths@.len() ==> #[trigger] widths@[c] == column_width(
                    rows.deep_view(),
                    c,
                    rows@.len(),
                ),
        decreases count - widths@.len(),
    {
        let width: u128 = measure_column(rows, widths.len());
        widths.push(width);
    }
    let ghost measured = column_widths(rows.deep_view());
    proof {
        assert(numbers(widths@) =~= measured);
    }
    let mut drawn: Vec<usize> = Vec::new();
    if count == 0 {
        return drawn;
    }
    let gaps: u128 = 3 * (count as u128 - 1);
    let ghost want = shrunk(measured, gaps as nat, room as nat);
    loop
        invariant
            widths@.len() == count,
            count > 0,
            room <= u16::MAX,
            gaps == 3 * (count - 1),
            want == shrunk(numbers(widths@), gaps as nat, room as nat),
        ensures
            want == numbers(widths@),
        decreases total(numbers(widths@)),
    {
        let sum: u128 = sum_widths(&widths);
        let at: usize = find_widest(&widths);
        if sum.saturating_add(gaps) <= room as u128 || widths[at] <= 1 {
            break ;
        }
        let ghost before = numbers(widths@);
        let less_one: u128 = widths[at] - 1;
        widths[at] = less_one;
        proof {
            lemma_total_update(before, at as int, less_one as nat);
            assert(numbers(widths@) =~= before.update(at as int, less_one as nat));
        }
    }
    proof {
        lemma_shrunk(measured, gaps as nat, room as nat);
        assert forall|i: int| 0 <= i < widths@.len() implies #[trigger] widths@[i]
            <= u16::MAX by {
            assert(want[i] == widths@[i]);
            lemma_total_bounds(want, i);
        }
    }
    while drawn.len() < count
        invariant
            drawn@.len() <= count == widths@.len(),
            forall|i: int| 0 <= i < widths@.len() ==> #[trigger] widths@[i] <= u16::MAX,
            forall|i: int| 0 <= i < drawn@.len() ==> #[trigger] drawn@[i] == widths@[i],
        decreases count - drawn@.len(),
    {
        let width: u128 = widths[drawn.len()];
        drawn.push(width as usize);
    }
    proof {
        assert(drawn@.map_values(|n: usize| n as nat) =~= want);
    }
    drawn
}

/// The rule under the header: a stroke for each column, joined where a border crosses it.
pub open spec fn header_rule(widths: Seq<nat>) -> Seq<char>
    decreases widths.len(),
{
    if widths.len() == 0 {
        Seq::empty()
    } else if widths.len() == 1 {
        repeated("─"@, widths[0])
    } else {
        header_rule(widths.drop_last()) + "─┼─"@ + repeated("─"@, widths.last())
    }
}

pub fn draw_rule(widths: &Vec<usize>) -> (r: String)
    ensures
        r@ == header_rule(widths@.map_values(|n: usize| n as nat)),
{
    let ghost all = widths@.map_values(|n: usize| n as nat);
    let stroke: Vec<char> = chars("─");
    let mut text: Vec<char> = Vec::new();
    let mut n: usize = 0;
    proof {
        assert(all.take(0) =~= Seq::empty());
    }
    while n < widths.len()
        invariant
            n <= widths@.len(),
            all == widths@.map_values(|n: usize| n as nat),
            stroke@ == "─"@,
            text@ == header_rule(all.take(n as int)),
        decreases widths@.len() - n,
    {
        proof {
            assert(all.take(n + 1).drop_last() =~= all.take(n as int));
        }
        if n > 0 {
            append_str(&mut text, "─┼─");
        }
        append_repeated(&mut text, stroke.as_slice(), widths[n]);
        n = n + 1;
        proof {
            assert(text@ =~= header_rule(all.take(n as int)));
        }
    }
    proof {
        assert(all.take(n as int) =~= all);
    }
    string(text.as_slice())
}

} // verus!
