//! What wrapping does to words and to the way they look.

use crate::graphics::{SpanView, Style};
use crate::markdown::wrap::{finished, glyph, glyphs, glyphs_columns, glyphs_of, lemma_word,
    lemma_word_start, links_from, span_of, spans_of, with_glyph, word_end, word_start, wrapped,
    Filling, Glyph, LinkView, PieceView, RunView, WrappedView};
use crate::text::is_space;
use crate::width::{glyph_columns, width_of_text};
use vstd::prelude::*;

verus! {

// ---------------------------------------------------------------------------------------
// What fits
// ---------------------------------------------------------------------------------------

proof fn lemma_columns_split(glyphs: Seq<Glyph>, i: int, k: int, end: int)
    requires
        i <= k <= end,
    ensures
        glyphs_columns(glyphs, i, end) == glyphs_columns(glyphs, i, k) + glyphs_columns(
            glyphs,
            k,
            end,
        ),
    decreases end - k,
{
    if k < end {
        lemma_columns_split(glyphs, i, k, end - 1);
    }
}

proof fn lemma_chars_fit(
    row: Filling,
    glyphs: Seq<Glyph>,
    k: int,
    end: int,
    pieces: Seq<PieceView>,
    line: usize,
    room: nat,
)
    requires
        k <= end,
        row.width + glyphs_columns(glyphs, k, end) <= room,
    ensures
        ({
            let after = row.with_chars(glyphs, k, end, pieces, line, room);
            &&& after.rows == row.rows
            &&& after.width == row.width + glyphs_columns(glyphs, k, end)
            &&& k < end || row.runs.len() > 0 ==> after.runs.len() > 0
        }),
    decreases end - k,
{
    if k < end {
        lemma_columns_split(glyphs, k, k + 1, end);
        assert(glyphs_columns(glyphs, k, k) == 0);
        assert(glyphs_columns(glyphs, k, k + 1) == glyph_columns(glyphs[k].c));
        lemma_chars_fit(
            row.with_char(glyphs[k], pieces, line, room),
            glyphs,
            k + 1,
            end,
            pieces,
            line,
            room,
        );
    }
}

/// A word goes behind the one before it, one space between them, wherever there is room for it
/// on the row; where there is none it begins a row.
pub proof fn a_word_stays_where_it_fits(
    row: Filling,
    glyphs: Seq<Glyph>,
    start: int,
    end: int,
    pieces: Seq<PieceView>,
    room: nat,
    plain: Style,
)
    requires
        0 <= start < end <= glyphs.len(),
        glyphs_columns(glyphs, start, end) <= room,
        row.runs.len() == 0 ==> row.width == 0,
    ensures
        ({
            let after = row.with_word(glyphs, start, end, pieces, room, plain);
            let columns = glyphs_columns(glyphs, start, end);
            &&& row.runs.len() > 0 && row.width + 1 + columns <= room ==> after.rows == row.rows
                && after.width == row.width + 1 + columns
            &&& row.runs.len() > 0 && row.width + 1 + columns > room ==> after.rows
                == row.rows.push(finished(row.runs, row.line)) && after.width == columns
            &&& row.runs.len() == 0 ==> after.rows == row.rows && after.width == columns
            &&& after.runs.len() > 0
        }),
{
    let first = pieces[glyphs[start].piece as int];
    let next = if row.runs.len() > 0 && row.width + 1 + glyphs_columns(glyphs, start, end) > room {
        row.broken(first.line)
    } else {
        row
    };
    let spaced = if next.runs.len() == 0 {
        Filling { line: first.line, ..next }
    } else {
        let before = next.runs.last();
        Filling {
            runs: next.runs.push(
                RunView {
                    text: seq![' '],
                    style: if before.style == first.style {
                        before.style
                    } else {
                        plain
                    },
                    link: if before.link == first.link {
                        before.link
                    } else {
                        None
                    },
                },
            ),
            width: next.width + 1,
            ..next
        }
    };
    lemma_chars_fit(spaced, glyphs, start, end, pieces, first.line, room);
}

proof fn lemma_word_bounds(glyphs: Seq<Glyph>, i: int)
    requires
        0 <= i <= glyphs.len(),
    ensures
        i <= word_end(glyphs, i) <= glyphs.len(),
        word_end(glyphs, i) < glyphs.len() ==> is_space(glyphs[word_end(glyphs, i)].c),
    decreases glyphs.len() - i,
{
    if i < glyphs.len() && !is_space(glyphs[i].c) {
        lemma_word_bounds(glyphs, i + 1);
    }
}

proof fn lemma_blank_columns(glyphs: Seq<Glyph>, i: int, end: int)
    requires
        0 <= i <= end <= glyphs.len(),
        forall|k: int| i <= k < end ==> glyph_columns((#[trigger] glyphs[k]).c) >= 1,
    ensures
        glyphs_columns(glyphs, i, end) >= end - i,
    decreases end - i,
{
    if i < end {
        lemma_blank_columns(glyphs, i, end - 1);
        assert(glyph_columns(glyphs[end - 1].c) >= 1);
    }
}

proof fn lemma_words_fit(
    row: Filling,
    glyphs: Seq<Glyph>,
    i: int,
    pieces: Seq<PieceView>,
    room: nat,
    plain: Style,
)
    requires
        0 <= i <= glyphs.len(),
        row.width + glyphs_columns(glyphs, i, glyphs.len() as int) <= room,
        row.runs.len() == 0 ==> row.width == 0,
        row.runs.len() > 0 && i < glyphs.len() ==> is_space(glyphs[i].c),
        forall|k: int| 0 <= k < glyphs.len() ==> glyph_columns((#[trigger] glyphs[k]).c) >= 1,
    ensures
        row.with_words(glyphs, i, pieces, room, plain).rows == row.rows,
    decreases glyphs.len() - i,
{
    let len = glyphs.len() as int;
    lemma_word(glyphs, i);
    lemma_word_start(glyphs, i);
    let start = word_start(glyphs, i);
    let end = word_end(glyphs, start);
    if start < len {
        lemma_word_bounds(glyphs, start);
        lemma_columns_split(glyphs, i, start, len);
        lemma_columns_split(glyphs, start, end, len);
        lemma_blank_columns(glyphs, i, start);
        a_word_stays_where_it_fits(row, glyphs, start, end, pieces, room, plain);
        lemma_words_fit(
            row.with_word(glyphs, start, end, pieces, room, plain),
            glyphs,
            end,
            pieces,
            room,
            plain,
        );
    }
}

/// A text no wider than the room there is stands on one row.
pub proof fn what_fits_is_not_broken(pieces: Seq<PieceView>, room: nat, plain: Style)
    requires
        ({
            let all = glyphs(pieces, pieces.len());
            &&& glyphs_columns(all, 0, all.len() as int) <= room
            &&& forall|k: int| 0 <= k < all.len() ==> glyph_columns((#[trigger] all[k]).c) >= 1
        }),
    ensures
        wrapped(pieces, room, plain).len() <= 1,
{
    let all = glyphs(pieces, pieces.len());
    let row = Filling { rows: Seq::empty(), runs: Seq::empty(), width: 0, line: 0 };
    lemma_words_fit(row, all, 0, pieces, room, plain);
}

// ---------------------------------------------------------------------------------------
// Looks
// ---------------------------------------------------------------------------------------

/// The characters of a text that are not white space, each with the style it is drawn in.
pub open spec fn shades(text: Seq<char>, style: Style) -> Seq<(char, Style)>
    decreases text.len(),
{
    if text.len() == 0 {
        Seq::empty()
    } else if is_space(text.last()) {
        shades(text.drop_last(), style)
    } else {
        shades(text.drop_last(), style).push((text.last(), style))
    }
}

/// Those of spans, one after the other.
pub open spec fn span_shades(spans: Seq<SpanView>) -> Seq<(char, Style)>
    decreases spans.len(),
{
    if spans.len() == 0 {
        Seq::empty()
    } else {
        span_shades(spans.drop_last()) + shades(spans.last().text, spans.last().style)
    }
}

/// Those of rows, one after the other.
pub open spec fn row_shades(rows: Seq<WrappedView>) -> Seq<(char, Style)>
    decreases rows.len(),
{
    if rows.len() == 0 {
        Seq::empty()
    } else {
        row_shades(rows.drop_last()) + span_shades(rows.last().spans)
    }
}

/// Those of the first `n` pieces.
pub open spec fn piece_shades(pieces: Seq<PieceView>, n: nat) -> Seq<(char, Style)>
    decreases n,
{
    if n == 0 {
        Seq::empty()
    } else {
        piece_shades(pieces, (n - 1) as nat) + shades(pieces[n - 1].text, pieces[n - 1].style)
    }
}

/// Those of the glyphs from `i` up to `end`.
spec fn glyph_shades(glyphs: Seq<Glyph>, pieces: Seq<PieceView>, i: int, end: int) -> Seq<
    (char, Style),
>
    decreases end - i,
{
    if i >= end {
        Seq::empty()
    } else {
        let last = glyphs[end - 1];
        let before = glyph_shades(glyphs, pieces, i, end - 1);
        if is_space(last.c) {
            before
        } else {
            before.push((last.c, pieces[last.piece as int].style))
        }
    }
}

proof fn lemma_glyph_shades_split(
    glyphs: Seq<Glyph>,
    pieces: Seq<PieceView>,
    i: int,
    k: int,
    end: int,
)
    requires
        i <= k <= end,
    ensures
        glyph_shades(glyphs, pieces, i, end) == glyph_shades(glyphs, pieces, i, k) + glyph_shades(
            glyphs,
            pieces,
            k,
            end,
        ),
    decreases end - k,
{
    if k < end {
        lemma_glyph_shades_split(glyphs, pieces, i, k, end - 1);
        assert(glyph_shades(glyphs, pieces, i, end) =~= glyph_shades(glyphs, pieces, i, k)
            + glyph_shades(glyphs, pieces, k, end));
    } else {
        assert(glyph_shades(glyphs, pieces, i, k) + Seq::<(char, Style)>::empty() =~= glyph_shades(
            glyphs,
            pieces,
            i,
            k,
        ));
    }
}

spec fn total(row: Filling) -> Seq<(char, Style)> {
    row_shades(row.rows) + span_shades(spans_of(row.runs))
}

proof fn lemma_span_push(spans: Seq<SpanView>, span: SpanView)
    ensures
        span_shades(spans.push(span)) == span_shades(spans) + shades(span.text, span.style),
{
    assert(spans.push(span).drop_last() =~= spans);
}

proof fn lemma_glyph_shade(runs: Seq<RunView>, c: char, style: Style, link: Option<Seq<char>>)
    ensures
        span_shades(spans_of(with_glyph(runs, c, style, link))) == if is_space(c) {
            span_shades(spans_of(runs))
        } else {
            span_shades(spans_of(runs)).push((c, style))
        },
{
    let more = with_glyph(runs, c, style, link);
    if runs.len() > 0 && runs.last().style == style && runs.last().link == link {
        let rest = runs.drop_last();
        let grown = RunView { text: runs.last().text.push(c), ..runs.last() };
        assert(spans_of(runs) =~= spans_of(rest).push(span_of(runs.last())));
        assert(spans_of(more) =~= spans_of(rest).push(span_of(grown)));
        lemma_span_push(spans_of(rest), span_of(runs.last()));
        lemma_span_push(spans_of(rest), span_of(grown));
        assert(grown.text.drop_last() =~= runs.last().text);
        assert(span_shades(spans_of(more)) =~= if is_space(c) {
            span_shades(spans_of(runs))
        } else {
            span_shades(spans_of(runs)).push((c, style))
        });
    } else {
        let own = RunView { text: seq![c], style, link };
        assert(spans_of(more) =~= spans_of(runs).push(span_of(own)));
        lemma_span_push(spans_of(runs), span_of(own));
        assert(seq![c].drop_last() =~= Seq::<char>::empty());
        assert(shades(Seq::empty(), style) =~= Seq::empty());
        assert(shades(seq![c], style) =~= if is_space(c) {
            Seq::empty()
        } else {
            seq![(c, style)]
        });
        assert(span_shades(spans_of(more)) =~= if is_space(c) {
            span_shades(spans_of(runs))
        } else {
            span_shades(spans_of(runs)).push((c, style))
        });
    }
}

proof fn lemma_broken(row: Filling, line: usize)
    ensures
        total(row.broken(line)) == total(row),
{
    let after = row.broken(line);
    assert(after.rows.drop_last() =~= row.rows);
    assert(spans_of(Seq::<RunView>::empty()) =~= Seq::empty());
    assert(total(after) =~= total(row));
}

proof fn lemma_char(row: Filling, glyph: Glyph, pieces: Seq<PieceView>, line: usize, room: nat)
    ensures
        total(row.with_char(glyph, pieces, line, room)) == if is_space(glyph.c) {
            total(row)
        } else {
            total(row).push((glyph.c, pieces[glyph.piece as int].style))
        },
{
    let n = glyph_columns(glyph.c);
    let next = if row.runs.len() > 0 && row.width + n > room {
        row.broken(line)
    } else {
        row
    };
    lemma_broken(row, line);
    let piece = pieces[glyph.piece as int];
    lemma_glyph_shade(next.runs, glyph.c, piece.style, piece.link);
    assert(total(row.with_char(glyph, pieces, line, room)) =~= if is_space(glyph.c) {
        total(row)
    } else {
        total(row).push((glyph.c, piece.style))
    });
}

proof fn lemma_chars(
    row: Filling,
    glyphs: Seq<Glyph>,
    k: int,
    end: int,
    pieces: Seq<PieceView>,
    line: usize,
    room: nat,
)
    requires
        k <= end,
    ensures
        total(row.with_chars(glyphs, k, end, pieces, line, room)) == total(row) + glyph_shades(
            glyphs,
            pieces,
            k,
            end,
        ),
    decreases end - k,
{
    if k < end {
        let next = row.with_char(glyphs[k], pieces, line, room);
        lemma_char(row, glyphs[k], pieces, line, room);
        lemma_chars(next, glyphs, k + 1, end, pieces, line, room);
        lemma_glyph_shades_split(glyphs, pieces, k, k + 1, end);
        assert(glyph_shades(glyphs, pieces, k, k) =~= Seq::empty());
        assert(glyph_shades(glyphs, pieces, k, k + 1) =~= if is_space(glyphs[k].c) {
            Seq::empty()
        } else {
            seq![(glyphs[k].c, pieces[glyphs[k].piece as int].style)]
        });
        assert(total(row.with_chars(glyphs, k, end, pieces, line, room)) =~= total(row)
            + glyph_shades(glyphs, pieces, k, end));
    } else {
        assert(total(row) + glyph_shades(glyphs, pieces, k, end) =~= total(row));
    }
}

proof fn lemma_one_word(
    row: Filling,
    glyphs: Seq<Glyph>,
    start: int,
    end: int,
    pieces: Seq<PieceView>,
    room: nat,
    plain: Style,
)
    requires
        start <= end,
    ensures
        total(row.with_word(glyphs, start, end, pieces, room, plain)) == total(row) + glyph_shades(
            glyphs,
            pieces,
            start,
            end,
        ),
{
    let first = pieces[glyphs[start].piece as int];
    let next = if row.runs.len() > 0 && row.width + 1 + glyphs_columns(glyphs, start, end) > room {
        row.broken(first.line)
    } else {
        row
    };
    lemma_broken(row, first.line);
    let spaced = if next.runs.len() == 0 {
        Filling { line: first.line, ..next }
    } else {
        let before = next.runs.last();
        let space = RunView {
            text: seq![' '],
            style: if before.style == first.style {
                before.style
            } else {
                plain
            },
            link: if before.link == first.link {
                before.link
            } else {
                None
            },
        };
        assert(spans_of(next.runs.push(space)) =~= spans_of(next.runs).push(span_of(space)));
        lemma_span_push(spans_of(next.runs), span_of(space));
        assert(seq![' '].drop_last() =~= Seq::<char>::empty());
        assert(shades(Seq::empty(), space.style) =~= Seq::empty());
        assert(is_space(' '));
        assert(shades(seq![' '], space.style) =~= Seq::empty());
        Filling { runs: next.runs.push(space), width: next.width + 1, ..next }
    };
    assert(total(spaced) =~= total(row));
    lemma_chars(spaced, glyphs, start, end, pieces, first.line, room);
}

proof fn lemma_skipped(glyphs: Seq<Glyph>, pieces: Seq<PieceView>, i: int)
    requires
        0 <= i <= glyphs.len(),
    ensures
        i <= word_start(glyphs, i) <= glyphs.len(),
        glyph_shades(glyphs, pieces, i, word_start(glyphs, i)) == Seq::<(char, Style)>::empty(),
    decreases glyphs.len() - i,
{
    if i < glyphs.len() && is_space(glyphs[i].c) {
        lemma_skipped(glyphs, pieces, i + 1);
        let end = word_start(glyphs, i + 1);
        lemma_glyph_shades_split(glyphs, pieces, i, i + 1, end);
        assert(glyph_shades(glyphs, pieces, i, i) =~= Seq::empty());
        assert(glyph_shades(glyphs, pieces, i, i + 1) =~= Seq::empty());
        assert(glyph_shades(glyphs, pieces, i, end) =~= Seq::empty());
    }
}

proof fn lemma_words(
    row: Filling,
    glyphs: Seq<Glyph>,
    i: int,
    pieces: Seq<PieceView>,
    room: nat,
    plain: Style,
)
    requires
        0 <= i <= glyphs.len(),
    ensures
        total(row.with_words(glyphs, i, pieces, room, plain)) == total(row) + glyph_shades(
            glyphs,
            pieces,
            i,
            glyphs.len() as int,
        ),
    decreases glyphs.len() - i,
{
    let len = glyphs.len() as int;
    lemma_word(glyphs, i);
    lemma_skipped(glyphs, pieces, i);
    let start = word_start(glyphs, i);
    let end = word_end(glyphs, start);
    lemma_glyph_shades_split(glyphs, pieces, i, start, len);
    if start < len {
        lemma_one_word(row, glyphs, start, end, pieces, room, plain);
        lemma_words(
            row.with_word(glyphs, start, end, pieces, room, plain),
            glyphs,
            end,
            pieces,
            room,
            plain,
        );
        lemma_glyph_shades_split(glyphs, pieces, start, end, len);
    }
    assert(total(row.with_words(glyphs, i, pieces, room, plain)) =~= total(row) + glyph_shades(
        glyphs,
        pieces,
        i,
        len,
    ));
}

proof fn lemma_shades_same(
    a: Seq<Glyph>,
    b: Seq<Glyph>,
    pieces: Seq<PieceView>,
    end: int,
)
    requires
        0 <= end <= a.len(),
        end <= b.len(),
        forall|k: int| 0 <= k < end ==> #[trigger] a[k] == b[k],
    ensures
        glyph_shades(a, pieces, 0, end) == glyph_shades(b, pieces, 0, end),
    decreases end,
{
    if end > 0 {
        lemma_shades_same(a, b, pieces, end - 1);
        assert(a[end - 1] == b[end - 1]);
    }
}

proof fn lemma_text_shades(
    before: Seq<Glyph>,
    text: Seq<char>,
    piece: usize,
    pieces: Seq<PieceView>,
)
    ensures
        ({
            let all = before + glyphs_of(text, piece);
            glyph_shades(all, pieces, 0, all.len() as int) == glyph_shades(
                before,
                pieces,
                0,
                before.len() as int,
            ) + shades(text, pieces[piece as int].style)
        }),
    decreases text.len(),
{
    let all = before + glyphs_of(text, piece);
    if text.len() == 0 {
        assert(all =~= before);
        assert(shades(text, pieces[piece as int].style) =~= Seq::empty());
        assert(glyph_shades(before, pieces, 0, before.len() as int) + Seq::<(char, Style)>::empty()
            =~= glyph_shades(before, pieces, 0, before.len() as int));
    } else {
        let rest = before + glyphs_of(text.drop_last(), piece);
        lemma_text_shades(before, text.drop_last(), piece, pieces);
        lemma_shades_same(all, rest, pieces, rest.len() as int);
        assert(all[all.len() - 1] == glyph(text.last(), piece));
        assert(glyph_shades(all, pieces, 0, all.len() as int) =~= glyph_shades(
            before,
            pieces,
            0,
            before.len() as int,
        ) + shades(text, pieces[piece as int].style));
    }
}

proof fn lemma_pieces(pieces: Seq<PieceView>, n: nat)
    requires
        n <= pieces.len() <= usize::MAX,
    ensures
        glyph_shades(glyphs(pieces, n), pieces, 0, glyphs(pieces, n).len() as int)
            == piece_shades(pieces, n),
    decreases n,
{
    if n > 0 {
        lemma_pieces(pieces, (n - 1) as nat);
        lemma_text_shades(
            glyphs(pieces, (n - 1) as nat),
            pieces[n - 1].text,
            (n - 1) as usize,
            pieces,
        );
    }
}

/// Every word is drawn in the style of the piece it stands in, in its place, wherever the rows
/// break: wrapping changes the look of nothing.
pub proof fn wrapping_keeps_the_look(pieces: Seq<PieceView>, room: nat, plain: Style)
    requires
        pieces.len() <= usize::MAX,
    ensures
        row_shades(wrapped(pieces, room, plain)) == piece_shades(pieces, pieces.len()),
{
    let all = glyphs(pieces, pieces.len());
    let row = Filling { rows: Seq::empty(), runs: Seq::empty(), width: 0, line: 0 };
    lemma_words(row, all, 0, pieces, room, plain);
    lemma_pieces(pieces, pieces.len());
    let last = row.with_words(all, 0, pieces, room, plain);
    assert(spans_of(Seq::<RunView>::empty()) =~= Seq::empty());
    assert(total(row) =~= Seq::empty());
    assert(total(last) =~= piece_shades(pieces, pieces.len()));
    if last.runs.len() == 0 {
        assert(spans_of(last.runs) =~= Seq::empty());
        assert(row_shades(last.rows) =~= total(last));
    } else {
        let rows = last.rows.push(finished(last.runs, last.line));
        assert(rows.drop_last() =~= last.rows);
    }
}

// ---------------------------------------------------------------------------------------
// Links
// ---------------------------------------------------------------------------------------

/// The columns the first `k` runs of a row take.
pub open spec fn column_of(runs: Seq<RunView>, k: int) -> nat
    decreases k,
{
    if k <= 0 {
        0
    } else {
        column_of(runs, k - 1) + width_of_text(runs[k - 1].text) as nat
    }
}

proof fn lemma_column_rises(runs: Seq<RunView>, a: int, b: int)
    requires
        0 <= a <= b,
    ensures
        column_of(runs, a) <= column_of(runs, b),
    decreases b - a,
{
    if a < b {
        lemma_column_rises(runs, a, b - 1);
    }
}

/// Links that are there stay, and only the last of them may reach further.
proof fn lemma_links_grow(runs: Seq<RunView>, k: int, links: Seq<LinkView>, j: int)
    requires
        0 <= k <= runs.len(),
        column_of(runs, runs.len() as int) <= usize::MAX,
        0 <= j < links.len(),
        forall|i: int| 0 <= i < links.len() ==> (#[trigger] links[i]).to <= column_of(runs, k),
    ensures
        ({
            let all = links_from(runs, k, column_of(runs, k) as usize, links);
            &&& j < all.len()
            &&& all[j].from == links[j].from
            &&& all[j].target == links[j].target
            &&& all[j].to >= links[j].to
        }),
    decreases runs.len() - k,
{
    lemma_column_rises(runs, k, runs.len() as int);
    if k < runs.len() {
        lemma_column_rises(runs, k + 1, runs.len() as int);
        let column = column_of(runs, k) as usize;
        let end = column_of(runs, k + 1) as usize;
        let more = match runs[k].link {
            None => links,
            Some(target) => if links.last().to == column && links.last().target == target {
                links.drop_last().push(LinkView { to: end, ..links.last() })
            } else {
                links.push(LinkView { from: column, to: end, target })
            },
        };
        assert forall|i: int| 0 <= i < more.len() implies (#[trigger] more[i]).to <= column_of(
            runs,
            k + 1,
        ) by {
            if i < links.len() {
                assert(links[i].to <= column_of(runs, k));
            }
        }
        lemma_links_grow(runs, k + 1, more, j);
    }
}

proof fn lemma_linked(runs: Seq<RunView>, k: int, links: Seq<LinkView>, i: int) -> (j: int)
    requires
        0 <= k <= i < runs.len(),
        column_of(runs, runs.len() as int) <= usize::MAX,
        runs[i].link is Some,
        forall|l: int|
            0 <= l < links.len() ==> (#[trigger] links[l]).from <= links[l].to && links[l].to
                <= column_of(runs, k),
    ensures
        ({
            let all = links_from(runs, k, column_of(runs, k) as usize, links);
            &&& 0 <= j < all.len()
            &&& all[j].target == runs[i].link->0
            &&& all[j].from <= column_of(runs, i)
            &&& column_of(runs, i + 1) <= all[j].to
        }),
    decreases runs.len() - k,
{
    lemma_column_rises(runs, k, runs.len() as int);
    lemma_column_rises(runs, k + 1, runs.len() as int);
    let column = column_of(runs, k) as usize;
    let end = column_of(runs, k + 1) as usize;
    let more = match runs[k].link {
        None => links,
        Some(target) => if links.len() > 0 && links.last().to == column && links.last().target
            == target {
            links.drop_last().push(LinkView { to: end, ..links.last() })
        } else {
            links.push(LinkView { from: column, to: end, target })
        },
    };
    assert forall|l: int| 0 <= l < more.len() implies (#[trigger] more[l]).from <= more[l].to
        && more[l].to <= column_of(runs, k + 1) by {
        if l < links.len() {
            assert(links[l].to <= column_of(runs, k));
            assert(links[l].from <= links[l].to);
        }
    }
    if k == i {
        if links.len() > 0 {
            assert(links[links.len() - 1].from <= links[links.len() - 1].to);
        }
        lemma_links_grow(runs, k + 1, more, more.len() - 1);
        more.len() - 1
    } else {
        lemma_linked(runs, k + 1, more, i)
    }
}

proof fn lemma_unlinked(runs: Seq<RunView>, k: int, links: Seq<LinkView>, lo: nat, hi: nat, j: int)
    requires
        0 <= k <= runs.len(),
        column_of(runs, runs.len() as int) <= usize::MAX,
        lo < hi <= column_of(runs, k),
        forall|l: int|
            0 <= l < links.len() ==> (#[trigger] links[l]).to <= lo || hi <= links[l].from,
    ensures
        ({
            let all = links_from(runs, k, column_of(runs, k) as usize, links);
            0 <= j < all.len() ==> all[j].to <= lo || hi <= all[j].from
        }),
    decreases runs.len() - k,
{
    lemma_column_rises(runs, k, runs.len() as int);
    if k < runs.len() {
        lemma_column_rises(runs, k, k + 1);
        lemma_column_rises(runs, k + 1, runs.len() as int);
        let column = column_of(runs, k) as usize;
        let end = column_of(runs, k + 1) as usize;
        let more = match runs[k].link {
            None => links,
            Some(target) => if links.len() > 0 && links.last().to == column && links.last().target
                == target {
                links.drop_last().push(LinkView { to: end, ..links.last() })
            } else {
                links.push(LinkView { from: column, to: end, target })
            },
        };
        assert forall|l: int| 0 <= l < more.len() implies (#[trigger] more[l]).to <= lo || hi
            <= more[l].from by {
            if l < links.len() {
                assert(links[l].to <= lo || hi <= links[l].from);
            }
        }
        lemma_unlinked(runs, k + 1, more, lo, hi, j);
    }
}

proof fn lemma_unlinked_at(runs: Seq<RunView>, k: int, links: Seq<LinkView>, i: int, j: int)
    requires
        0 <= k <= i < runs.len(),
        column_of(runs, runs.len() as int) <= usize::MAX,
        runs[i].link is None,
        column_of(runs, i) < column_of(runs, i + 1),
        forall|l: int| 0 <= l < links.len() ==> (#[trigger] links[l]).to <= column_of(runs, k),
    ensures
        ({
            let all = links_from(runs, k, column_of(runs, k) as usize, links);
            0 <= j < all.len() ==> all[j].to <= column_of(runs, i) || column_of(runs, i + 1)
                <= all[j].from
        }),
    decreases i - k,
{
    lemma_column_rises(runs, k, runs.len() as int);
    lemma_column_rises(runs, k, k + 1);
    lemma_column_rises(runs, k + 1, runs.len() as int);
    let column = column_of(runs, k) as usize;
    let end = column_of(runs, k + 1) as usize;
    if k == i {
        lemma_unlinked(runs, k + 1, links, column_of(runs, i), column_of(runs, i + 1), j);
    } else {
        let more = match runs[k].link {
            None => links,
            Some(target) => if links.len() > 0 && links.last().to == column && links.last().target
                == target {
                links.drop_last().push(LinkView { to: end, ..links.last() })
            } else {
                links.push(LinkView { from: column, to: end, target })
            },
        };
        assert forall|l: int| 0 <= l < more.len() implies (#[trigger] more[l]).to <= column_of(
            runs,
            k + 1,
        ) by {
            if l < links.len() {
                assert(links[l].to <= column_of(runs, k));
            }
        }
        lemma_unlinked_at(runs, k + 1, more, i, j);
    }
}

/// The text of a link is covered by a link that leads where it does, from its first column to
/// its last; text in no link is covered by none.
pub proof fn links_cover_their_text(runs: Seq<RunView>, line: usize, i: int, j: int)
    requires
        0 <= i < runs.len(),
        column_of(runs, runs.len() as int) <= usize::MAX,
    ensures
        runs[i].link matches Some(target) ==> exists|l: int|
            0 <= l < finished(runs, line).links.len() && {
                let link = #[trigger] finished(runs, line).links[l];
                link.target == target && link.from <= column_of(runs, i) && column_of(runs, i + 1)
                    <= link.to
            },
        runs[i].link is None && column_of(runs, i) < column_of(runs, i + 1) && 0 <= j < finished(
            runs,
            line,
        ).links.len() ==> finished(runs, line).links[j].to <= column_of(runs, i) || column_of(
            runs,
            i + 1,
        ) <= finished(runs, line).links[j].from,
{
    let none = Seq::<LinkView>::empty();
    if runs[i].link is Some {
        let l = lemma_linked(runs, 0, none, i);
        assert(finished(runs, line).links[l].target == runs[i].link->0);
    } else if column_of(runs, i) < column_of(runs, i + 1) {
        lemma_unlinked_at(runs, 0, none, i, j);
    }
}

} // verus!
