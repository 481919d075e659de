//! That what a file says is drawn: nothing of its text is lost on the way to the rows.

use crate::graphics::{SpanView, Style};
use crate::markdown::events::{Level, MarkdownEnd, MarkdownEventView, MarkdownTagView};
use crate::markdown::html::{shown, HtmlPartView};
use crate::markdown::render::{rows_of, without_last_blanks};
use crate::markdown::sheet::{all_drawn, image_words, prefix, row_spans, ContainerView, PageView,
    RowView, SheetView, TableView};
use crate::markdown::table::{column_widths, header_rule, shrunk};
use crate::markdown::wrap::{pieces_text, rows_text, spans_text, wrapped, wrapping_keeps_the_text,
    LinkView, PieceView, WrappedView};
use crate::text::{ink, lemma_ink_joined, repeated};
use crate::width::capped;
use vstd::prelude::*;

verus! {

// ---------------------------------------------------------------------------------------
// What is said
// ---------------------------------------------------------------------------------------

/// What the images among parts of HTML are shown as, from part `k` on.
pub open spec fn said_in_html(parts: Seq<HtmlPartView>, k: int) -> Seq<char>
    decreases parts.len() - k,
{
    if k >= parts.len() {
        Seq::empty()
    } else {
        (match parts[k] {
            HtmlPartView::Image(alt) => image_words(alt),
            _ => Seq::empty(),
        }) + said_in_html(parts, k + 1)
    }
}

/// What an event inside a paragraph says: text, inline code and mathematics themselves, a
/// reference to a footnote its label in brackets, an image what stands for it.
pub open spec fn said_inline(event: MarkdownEventView) -> Seq<char> {
    match event {
        MarkdownEventView::Text(text) => text,
        MarkdownEventView::Code(text) => text,
        MarkdownEventView::InlineMath(text) => text,
        MarkdownEventView::DisplayMath(text) => text,
        MarkdownEventView::FootnoteReference(label) => "["@ + label + "]"@,
        MarkdownEventView::InlineHtml(html) => said_in_html(shown(html), 0),
        MarkdownEventView::Start(MarkdownTagView::Image) => "[image: "@,
        MarkdownEventView::End(MarkdownEnd::Image) => "]"@,
        _ => Seq::empty(),
    }
}

/// Whether an event stands inside a paragraph: text of any kind, a line break, and what is
/// open or closed around text.
pub open spec fn is_inline(event: MarkdownEventView) -> bool {
    match event {
        MarkdownEventView::Text(_)
        | MarkdownEventView::Code(_)
        | MarkdownEventView::InlineMath(_)
        | MarkdownEventView::DisplayMath(_)
        | MarkdownEventView::FootnoteReference(_)
        | MarkdownEventView::InlineHtml(_)
        | MarkdownEventView::SoftBreak
        | MarkdownEventView::HardBreak => true,
        MarkdownEventView::Start(tag) => tag is Paragraph || tag is Emphasis || tag is Strong
            || tag is Strikethrough || tag is Link || tag is Image,
        MarkdownEventView::End(tag) => tag is Emphasis || tag is Strong || tag is Strikethrough
            || tag is Link || tag is Image,
        _ => false,
    }
}

/// What the first `n` events say, one after the other.
pub open spec fn said_in_all(events: Seq<(MarkdownEventView, usize)>, n: nat) -> Seq<char>
    decreases n,
{
    if n == 0 {
        Seq::empty()
    } else {
        said_in_all(events, (n - 1) as nat) + said_inline(events[n - 1].0)
    }
}

/// How many of the first `n` containers put something in front of a row: all but the lists
/// themselves, whose items do.
pub open spec fn fronts(containers: Seq<ContainerView>, n: nat) -> nat
    decreases n,
{
    if n == 0 {
        0
    } else {
        fronts(containers, (n - 1) as nat) + (if containers[n - 1] is List {
            0nat
        } else {
            1
        })
    }
}

/// The text of the rows from `from` to `n`, without what stands in front of each.
pub open spec fn own_words(rows: Seq<RowView>, from: int, n: int, front: nat) -> Seq<char>
    decreases n - from,
{
    if n <= from {
        Seq::empty()
    } else {
        own_words(rows, from, n - 1, front) + spans_text(rows[n - 1].spans.skip(front as int))
    }
}

// ---------------------------------------------------------------------------------------
// A paragraph
// ---------------------------------------------------------------------------------------

proof fn lemma_fronts(containers: Seq<ContainerView>, n: nat, list: Style)
    requires
        n <= containers.len(),
    ensures
        prefix(containers, n, list).len() == fronts(containers, n),
        fronts(all_drawn(containers), n) == fronts(containers, n),
    decreases n,
{
    if n > 0 {
        lemma_fronts(containers, (n - 1) as nat, list);
    }
}

/// The same rows, and maybe more behind them.
proof fn lemma_own_words_same(a: Seq<RowView>, b: Seq<RowView>, from: int, n: int, front: nat)
    requires
        0 <= from,
        n <= a.len(),
        n <= b.len(),
        forall|k: int| 0 <= k < n ==> #[trigger] a[k] == b[k],
    ensures
        own_words(a, from, n, front) == own_words(b, from, n, front),
    decreases n - from,
{
    if n > from {
        lemma_own_words_same(a, b, from, n - 1, front);
        assert(a[n - 1] == b[n - 1]);
    }
}

proof fn lemma_own_words_split(rows: Seq<RowView>, from: int, at: int, n: int, front: nat)
    requires
        0 <= from <= at <= n,
    ensures
        own_words(rows, from, n, front) == own_words(rows, from, at, front) + own_words(
            rows,
            at,
            n,
            front,
        ),
    decreases n - at,
{
    if n > at {
        lemma_own_words_split(rows, from, at, n - 1, front);
        assert(own_words(rows, from, n, front) =~= own_words(rows, from, at, front) + own_words(
            rows,
            at,
            n,
            front,
        ));
    } else {
        assert(own_words(rows, at, n, front) =~= Seq::<char>::empty());
        assert(own_words(rows, from, at, front) + Seq::<char>::empty() =~= own_words(
            rows,
            from,
            at,
            front,
        ));
    }
}

/// What the rows behind those of another sheet say.
spec fn grown(before: SheetView, after: SheetView, front: nat) -> Seq<char> {
    own_words(after.rows, before.rows.len() as int, after.rows.len() as int, front)
}

/// All of the sheet is there still, and it may have grown.
spec fn extends(before: SheetView, after: SheetView) -> bool {
    &&& before.rows.len() <= after.rows.len()
    &&& forall|k: int| 0 <= k < before.rows.len() ==> #[trigger] after.rows[k] == before.rows[k]
    &&& after.containers.len() == before.containers.len()
    &&& fronts(after.containers, after.containers.len()) == fronts(
        before.containers,
        before.containers.len(),
    )
}

proof fn lemma_row_own(
    sheet: SheetView,
    spans: Seq<SpanView>,
    links: Seq<LinkView>,
    line: usize,
    page: PageView,
)
    ensures
        ({
            let after = sheet.with_row(spans, links, line, page);
            let front = fronts(sheet.containers, sheet.containers.len());
            &&& extends(sheet, after)
            &&& after.rows.len() == sheet.rows.len() + 1
            &&& after.rows.last().spans.skip(front as int) == spans
            &&& grown(sheet, after, front) == spans_text(spans)
        }),
{
    let after = sheet.with_row(spans, links, line, page);
    let front = fronts(sheet.containers, sheet.containers.len());
    lemma_fronts(sheet.containers, sheet.containers.len(), page.styles.list);
    assert(after.rows.last().spans.skip(front as int) =~= spans);
    reveal_with_fuel(own_words, 2);
    assert(grown(sheet, after, front) =~= spans_text(spans));
}

proof fn lemma_rows_text_skip(rows: Seq<WrappedView>, k: int)
    requires
        0 <= k < rows.len(),
    ensures
        rows_text(rows.skip(k)) == spans_text(rows[k].spans) + rows_text(rows.skip(k + 1)),
    decreases rows.len() - k,
{
    let a = rows.skip(k);
    let b = rows.skip(k + 1);
    if k + 1 == rows.len() {
        assert(b.len() == 0);
        assert(a.drop_last().len() == 0);
        assert(rows_text(a.drop_last()) =~= Seq::<char>::empty());
        assert(a.last() == rows[k]);
        assert(rows_text(a) =~= spans_text(rows[k].spans) + rows_text(b));
    } else {
        let less = rows.drop_last();
        lemma_rows_text_skip(less, k);
        assert(a.drop_last() =~= less.skip(k));
        assert(b.drop_last() =~= less.skip(k + 1));
        assert(less[k] == rows[k]);
        assert(a.last() == b.last());
        assert(rows_text(a) =~= spans_text(rows[k].spans) + rows_text(b));
    }
}

proof fn lemma_wrapped_own(sheet: SheetView, rows: Seq<WrappedView>, k: int, page: PageView)
    requires
        0 <= k <= rows.len(),
    ensures
        ({
            let after = sheet.with_wrapped(rows, k, page);
            let front = fronts(sheet.containers, sheet.containers.len());
            &&& extends(sheet, after)
            &&& grown(sheet, after, front) == rows_text(rows.skip(k))
            &&& after.pieces == sheet.pieces
            &&& after.code == sheet.code
            &&& forall|j: int|
                sheet.rows.len() <= j < after.rows.len() ==> !(#[trigger] after.rows[j]).blank
        }),
    decreases rows.len() - k,
{
    let front = fronts(sheet.containers, sheet.containers.len());
    let after = sheet.with_wrapped(rows, k, page);
    if k < rows.len() {
        let one = sheet.with_row(rows[k].spans, rows[k].links, rows[k].line, page);
        lemma_row_own(sheet, rows[k].spans, rows[k].links, rows[k].line, page);
        lemma_wrapped_own(one, rows, k + 1, page);
        lemma_rows_text_skip(rows, k);
        lemma_own_words_split(
            after.rows,
            sheet.rows.len() as int,
            one.rows.len() as int,
            after.rows.len() as int,
            front,
        );
        lemma_own_words_same(
            after.rows,
            one.rows,
            sheet.rows.len() as int,
            one.rows.len() as int,
            front,
        );
        assert forall|j: int| 0 <= j < sheet.rows.len() implies #[trigger] after.rows[j]
            == sheet.rows[j] by {
            assert(one.rows[j] == sheet.rows[j]);
            assert(after.rows[j] == one.rows[j]);
        }
        assert(after.rows[one.rows.len() - 1] == one.rows[one.rows.len() - 1]);
    } else {
        assert(rows.skip(k).len() == 0);
        assert(grown(sheet, after, front) =~= rows_text(rows.skip(k)));
    }
}

/// What was collected is drawn whole.
proof fn lemma_flushed_own(sheet: SheetView, page: PageView)
    ensures
        ({
            let after = sheet.flushed(page);
            let front = fronts(sheet.containers, sheet.containers.len());
            &&& extends(sheet, after)
            &&& ink(grown(sheet, after, front)) == ink(
                pieces_text(sheet.pieces, sheet.pieces.len()),
            )
            &&& after.pieces.len() == 0
            &&& after.code == sheet.code
            &&& forall|j: int|
                sheet.rows.len() <= j < after.rows.len() ==> !(#[trigger] after.rows[j]).blank
        }),
{
    let front = fronts(sheet.containers, sheet.containers.len());
    if sheet.pieces.len() > 0 {
        let rows = wrapped(sheet.pieces, sheet.room(page), page.styles.text);
        let bare = SheetView { pieces: Seq::empty(), ..sheet };
        lemma_wrapped_own(bare, rows, 0, page);
        wrapping_keeps_the_text(sheet.pieces, sheet.room(page), page.styles.text);
        assert(rows.skip(0) =~= rows);
    } else {
        assert(grown(sheet, sheet.flushed(page), front) =~= Seq::<char>::empty());
    }
}

/// What the sheet says behind the rows of another: what is drawn, and what is collected.
spec fn told(before: SheetView, after: SheetView, front: nat) -> Seq<char> {
    ink(grown(before, after, front)) + ink(pieces_text(after.pieces, after.pieces.len()))
}

proof fn lemma_text_told(
    before: SheetView,
    sheet: SheetView,
    text: Seq<char>,
    style: Style,
    line: usize,
    front: nat,
)
    ensures
        told(before, sheet.with_text(text, style, line), front) == told(before, sheet, front)
            + ink(text),
{
    let after = sheet.with_text(text, style, line);
    let n = sheet.pieces.len();
    lemma_pieces_same(sheet.pieces, after.pieces, n);
    lemma_ink_joined(pieces_text(sheet.pieces, n), text);
    assert(told(before, after, front) =~= told(before, sheet, front) + ink(text));
}

proof fn lemma_pieces_same(a: Seq<PieceView>, b: Seq<PieceView>, n: nat)
    requires
        n <= a.len(),
        n <= b.len(),
        forall|k: int| 0 <= k < n ==> #[trigger] a[k] == b[k],
    ensures
        pieces_text(a, n) == pieces_text(b, n),
    decreases n,
{
    if n > 0 {
        lemma_pieces_same(a, b, (n - 1) as nat);
        assert(a[n - 1] == b[n - 1]);
    }
}

proof fn lemma_flushed_told(before: SheetView, sheet: SheetView, page: PageView)
    requires
        extends(before, sheet),
    ensures
        ({
            let front = fronts(before.containers, before.containers.len());
            &&& extends(before, sheet.flushed(page))
            &&& told(before, sheet.flushed(page), front) == told(before, sheet, front)
        }),
{
    let front = fronts(before.containers, before.containers.len());
    let after = sheet.flushed(page);
    lemma_flushed_own(sheet, page);
    assert forall|j: int| 0 <= j < before.rows.len() implies #[trigger] after.rows[j]
        == before.rows[j] by {
        assert(sheet.rows[j] == before.rows[j]);
        assert(after.rows[j] == sheet.rows[j]);
    }
    lemma_own_words_split(
        after.rows,
        before.rows.len() as int,
        sheet.rows.len() as int,
        after.rows.len() as int,
        front,
    );
    lemma_own_words_same(
        after.rows,
        sheet.rows,
        before.rows.len() as int,
        sheet.rows.len() as int,
        front,
    );
    lemma_ink_joined(grown(before, sheet, front), grown(sheet, after, front));
    assert(pieces_text(after.pieces, 0) =~= Seq::<char>::empty());
    assert(ink(Seq::<char>::empty()) =~= Seq::<char>::empty());
    assert(told(before, after, front) =~= told(before, sheet, front));
}

proof fn lemma_inline_html_told(
    before: SheetView,
    sheet: SheetView,
    parts: Seq<HtmlPartView>,
    k: int,
    line: usize,
    page: PageView,
)
    requires
        extends(before, sheet),
        0 <= k,
    ensures
        ({
            let front = fronts(before.containers, before.containers.len());
            let after = sheet.with_inline_html(parts, k, line, page);
            &&& extends(before, after)
            &&& told(before, after, front) == told(before, sheet, front) + ink(
                said_in_html(parts, k),
            )
            &&& after.code == sheet.code
        }),
    decreases parts.len() - k,
{
    let front = fronts(before.containers, before.containers.len());
    assert(ink(Seq::<char>::empty()) =~= Seq::<char>::empty());
    if k < parts.len() {
        lemma_flushed_told(before, sheet, page);
        lemma_flushed_own(sheet, page);
        let (next, said) = match parts[k] {
            HtmlPartView::Break => (sheet.flushed(page), Seq::<char>::empty()),
            HtmlPartView::Image(alt) => (sheet.with_image(alt, line, page), image_words(alt)),
            HtmlPartView::Text(_) => (sheet, Seq::<char>::empty()),
        };
        if let HtmlPartView::Image(alt) = parts[k] {
            lemma_text_told(before, sheet, image_words(alt), page.styles.dim, line, front);
            assert(extends(before, next));
        }
        assert(told(before, next, front) =~= told(before, sheet, front) + ink(said));
        lemma_inline_html_told(before, next, parts, k + 1, line, page);
        lemma_ink_joined(said, said_in_html(parts, k + 1));
        assert(told(before, next, front) + ink(said_in_html(parts, k + 1)) =~= told(
            before,
            sheet,
            front,
        ) + ink(said_in_html(parts, k)));
    } else {
        assert(told(before, sheet, front) + ink(said_in_html(parts, k)) =~= told(
            before,
            sheet,
            front,
        ));
    }
}

/// An event of a paragraph says what it says.
proof fn lemma_event_told(
    before: SheetView,
    sheet: SheetView,
    event: MarkdownEventView,
    offset: usize,
    highlighted: Seq<Seq<Seq<SpanView>>>,
    page: PageView,
)
    requires
        extends(before, sheet),
        sheet.code is None,
        is_inline(event),
    ensures
        ({
            let front = fronts(before.containers, before.containers.len());
            let after = sheet.after(event, offset, highlighted, page);
            &&& extends(before, after)
            &&& told(before, after, front) == told(before, sheet, front) + ink(said_inline(event))
            &&& after.code is None
        }),
{
    let front = fronts(before.containers, before.containers.len());
    let line = page.line_of(offset);
    let after = sheet.after(event, offset, highlighted, page);
    assert(ink(Seq::<char>::empty()) =~= Seq::<char>::empty());
    assert(told(before, sheet, front) + Seq::<char>::empty() =~= told(before, sheet, front));
    match event {
        MarkdownEventView::Text(text) => {
            lemma_text_told(before, sheet, text, sheet.style(page), line, front);
        },
        MarkdownEventView::Code(text)
        | MarkdownEventView::InlineMath(text)
        | MarkdownEventView::DisplayMath(text) => {
            let style = sheet.style(page).spec_patch(page.styles.code);
            lemma_text_told(before, sheet, text, style, line, front);
        },
        MarkdownEventView::FootnoteReference(label) => {
            lemma_text_told(before, sheet, "["@ + label + "]"@, page.styles.link, line, front);
        },
        MarkdownEventView::SoftBreak => {
            lemma_text_told(before, sheet, " "@, sheet.style(page), line, front);
            reveal_strlit(" ");
            crate::text::lemma_ink_blank(" "@);
        },
        MarkdownEventView::HardBreak => {
            lemma_flushed_told(before, sheet, page);
            lemma_flushed_own(sheet, page);
        },
        MarkdownEventView::InlineHtml(html) => {
            lemma_inline_html_told(before, sheet, shown(html), 0, line, page);
        },
        MarkdownEventView::Start(tag) => {
            if tag is Image {
                lemma_text_told(before, sheet, "[image: "@, page.styles.dim, line, front);
                let put = sheet.with_text("[image: "@, page.styles.dim, line);
                assert(told(before, after, front) == told(before, put, front));
            } else {
                assert(told(before, after, front) == told(before, sheet, front));
            }
        },
        MarkdownEventView::End(tag) => {
            if tag is Image {
                let rest = sheet.without_inline();
                let at = if sheet.pieces.len() > 0 {
                    sheet.pieces.last().line
                } else {
                    sheet.block_line
                };
                assert(told(before, rest, front) == told(before, sheet, front));
                lemma_text_told(before, rest, "]"@, page.styles.dim, at, front);
            } else {
                assert(told(before, after, front) == told(before, sheet, front));
            }
        },
        _ => {},
    }
}

/// The events from `k` on are the first of them and the rest.
proof fn lemma_run_told(
    before: SheetView,
    sheet: SheetView,
    events: Seq<(MarkdownEventView, usize)>,
    k: int,
    highlighted: Seq<Seq<Seq<SpanView>>>,
    page: PageView,
    said: Seq<char>,
)
    requires
        0 <= k <= events.len(),
        extends(before, sheet),
        sheet.code is None,
        forall|j: int| 0 <= j < events.len() ==> is_inline((#[trigger] events[j]).0),
        told(before, sheet, fronts(before.containers, before.containers.len())) == said + ink(
            said_in_all(events, k as nat),
        ),
    ensures
        ({
            let front = fronts(before.containers, before.containers.len());
            let after = sheet.after_all(events, k, highlighted, page);
            &&& extends(before, after)
            &&& told(before, after, front) == said + ink(said_in_all(events, events.len()))
            &&& after.code is None
        }),
    decreases events.len() - k,
{
    let front = fronts(before.containers, before.containers.len());
    if k < events.len() {
        let (event, offset) = events[k];
        assert(is_inline(events[k].0));
        let next = sheet.after(event, offset, highlighted, page);
        lemma_event_told(before, sheet, event, offset, highlighted, page);
        lemma_ink_joined(said_in_all(events, k as nat), said_inline(event));
        assert(said_in_all(events, (k + 1) as nat) == said_in_all(events, k as nat) + said_inline(
            event,
        ));
        assert(told(before, next, front) =~= said + ink(said_in_all(events, (k + 1) as nat)));
        lemma_run_told(before, next, events, k + 1, highlighted, page, said);
    }
}

/// A paragraph is drawn whole: whatever it is inside of, the rows it comes to say, without
/// what stands in front of each of them and without white space, what its text, its inline
/// code and its mathematics say, in order and nothing else. What was drawn before stays.
pub proof fn a_paragraph_is_drawn_whole(
    sheet: SheetView,
    events: Seq<(MarkdownEventView, usize)>,
    offset: usize,
    highlighted: Seq<Seq<Seq<SpanView>>>,
    page: PageView,
)
    requires
        sheet.pieces.len() == 0,
        sheet.code is None,
        forall|j: int| 0 <= j < events.len() ==> is_inline((#[trigger] events[j]).0),
    ensures
        ({
            let rows = sheet.after_all(events, 0, highlighted, page).after(
                MarkdownEventView::End(MarkdownEnd::Paragraph),
                offset,
                highlighted,
                page,
            ).rows;
            let from = sheet.rows.len() as int;
            let to = if rows.len() > 0 && rows.last().blank {
                rows.len() - 1
            } else {
                rows.len() as int
            };
            let front = fronts(sheet.containers, sheet.containers.len());
            &&& from <= rows.len()
            &&& forall|k: int| 0 <= k < from ==> #[trigger] rows[k] == sheet.rows[k]
            &&& forall|k: int| from <= k < to ==> !(#[trigger] rows[k]).blank
            &&& ink(own_words(rows, from, to, front)) == ink(said_in_all(events, events.len()))
        }),
{
    let front = fronts(sheet.containers, sheet.containers.len());
    let none = Seq::<char>::empty();
    assert(ink(none) =~= none);
    assert(grown(sheet, sheet, front) =~= none);
    assert(pieces_text(sheet.pieces, 0) =~= none);
    assert(told(sheet, sheet, front) =~= none + ink(said_in_all(events, 0)));
    lemma_run_told(sheet, sheet, events, 0, highlighted, page, none);
    let read = sheet.after_all(events, 0, highlighted, page);
    let drawn = read.flushed(page);
    lemma_flushed_told(sheet, read, page);
    lemma_flushed_own(read, page);
    assert(pieces_text(drawn.pieces, 0) =~= none);
    assert(told(sheet, drawn, front) =~= ink(grown(sheet, drawn, front)));
    assert(none + ink(said_in_all(events, events.len())) =~= ink(
        said_in_all(events, events.len()),
    ));
    let rows = drawn.with_blank().rows;
    let from = sheet.rows.len() as int;
    lemma_own_words_same(rows, drawn.rows, from, drawn.rows.len() as int, front);
    lemma_rows_not_blank(sheet, events, 0, highlighted, page, sheet);
    assert forall|j: int| from <= j < drawn.rows.len() implies !(
    #[trigger] drawn.rows[j]).blank by {
        if j < read.rows.len() {
            assert(!read.rows[j].blank);
            assert(drawn.rows[j] == read.rows[j]);
        }
    }
    if rows.len() > drawn.rows.len() {
        assert(rows.last().blank);
    } else if rows.len() > 0 && rows.last().blank {
        assert(rows == drawn.rows);
        assert(drawn.rows.len() <= from);
        assert(own_words(rows, from, rows.len() - 1, front) =~= none);
        assert(grown(sheet, drawn, front) =~= none);
    }
}

/// No event of a paragraph draws a blank row.
proof fn lemma_rows_not_blank(
    sheet: SheetView,
    events: Seq<(MarkdownEventView, usize)>,
    k: int,
    highlighted: Seq<Seq<Seq<SpanView>>>,
    page: PageView,
    before: SheetView,
)
    requires
        0 <= k <= events.len(),
        sheet.code is None,
        before.rows.len() <= sheet.rows.len(),
        forall|j: int| 0 <= j < events.len() ==> is_inline((#[trigger] events[j]).0),
        forall|j: int|
            before.rows.len() <= j < sheet.rows.len() ==> !(#[trigger] sheet.rows[j]).blank,
    ensures
        ({
            let after = sheet.after_all(events, k, highlighted, page);
            forall|j: int|
                before.rows.len() <= j < after.rows.len() ==> !(#[trigger] after.rows[j]).blank
        }),
    decreases events.len() - k,
{
    if k < events.len() {
        let (event, offset) = events[k];
        assert(is_inline(events[k].0));
        let next = sheet.after(event, offset, highlighted, page);
        lemma_flushed_own(sheet, page);
        let flushed = sheet.flushed(page);
        assert forall|j: int| before.rows.len() <= j < flushed.rows.len() implies !(
        #[trigger] flushed.rows[j]).blank by {
            if j < sheet.rows.len() {
                assert(flushed.rows[j] == sheet.rows[j]);
            }
        }
        if let MarkdownEventView::InlineHtml(html) = event {
            lemma_html_not_blank(sheet, shown(html), 0, page.line_of(offset), page, before);
        }
        lemma_rows_not_blank(next, events, k + 1, highlighted, page, before);
    }
}

proof fn lemma_html_not_blank(
    sheet: SheetView,
    parts: Seq<HtmlPartView>,
    k: int,
    line: usize,
    page: PageView,
    before: SheetView,
)
    requires
        0 <= k,
        sheet.code is None,
        before.rows.len() <= sheet.rows.len(),
        forall|j: int|
            before.rows.len() <= j < sheet.rows.len() ==> !(#[trigger] sheet.rows[j]).blank,
    ensures
        ({
            let after = sheet.with_inline_html(parts, k, line, page);
            &&& after.code is None
            &&& before.rows.len() <= after.rows.len()
            &&& forall|j: int|
                before.rows.len() <= j < after.rows.len() ==> !(#[trigger] after.rows[j]).blank
        }),
    decreases parts.len() - k,
{
    if k < parts.len() {
        lemma_flushed_own(sheet, page);
        let next = match parts[k] {
            HtmlPartView::Break => sheet.flushed(page),
            HtmlPartView::Image(alt) => sheet.with_image(alt, line, page),
            HtmlPartView::Text(_) => sheet,
        };
        assert forall|j: int| before.rows.len() <= j < next.rows.len() implies !(
        #[trigger] next.rows[j]).blank by {
            if j < sheet.rows.len() {
                assert(next.rows[j] == sheet.rows[j]);
            }
        }
        lemma_html_not_blank(next, parts, k + 1, line, page, before);
    }
}

// ---------------------------------------------------------------------------------------
// One text within another
// ---------------------------------------------------------------------------------------

/// Whether all of a text is in another, in its order, with maybe more between.
pub open spec fn is_within(a: Seq<char>, b: Seq<char>) -> bool
    decreases b.len(),
{
    ||| a.len() == 0
    ||| b.len() > 0 && is_within(a, b.drop_last())
    ||| b.len() > 0 && a.len() > 0 && a.last() == b.last() && is_within(
        a.drop_last(),
        b.drop_last(),
    )
}

proof fn lemma_within_itself(a: Seq<char>)
    ensures
        is_within(a, a),
    decreases a.len(),
{
    if a.len() > 0 {
        lemma_within_itself(a.drop_last());
    }
}

proof fn lemma_within_both(a: Seq<char>, b: Seq<char>, c: Seq<char>, d: Seq<char>)
    requires
        is_within(a, b),
        is_within(c, d),
    ensures
        is_within(a + c, b + d),
    decreases d.len(),
{
    if d.len() == 0 {
        assert(a + c =~= a);
        assert(b + d =~= b);
    } else {
        assert((b + d).drop_last() =~= b + d.drop_last());
        if is_within(c, d.drop_last()) {
            lemma_within_both(a, b, c, d.drop_last());
        } else if c.len() == 0 {
            assert(a + c =~= a);
            lemma_within_both(a, b, c, d.drop_last());
        } else {
            lemma_within_both(a, b, c.drop_last(), d.drop_last());
            assert((a + c).drop_last() =~= a + c.drop_last());
            assert((a + c).last() == (b + d).last());
        }
    }
}

/// What is within two texts one behind the other is something within the one, and then
/// something within the other.
proof fn lemma_within_parts(x: Seq<char>, a: Seq<char>, b: Seq<char>) -> (r: (
    Seq<char>,
    Seq<char>,
))
    requires
        is_within(x, a + b),
    ensures
        x == r.0 + r.1,
        is_within(r.0, a),
        is_within(r.1, b),
    decreases b.len(),
{
    let none = Seq::<char>::empty();
    if b.len() == 0 {
        assert(a + b =~= a);
        assert(x + none =~= x);
        (x, none)
    } else if x.len() == 0 {
        assert(x =~= none + none);
        (none, none)
    } else {
        assert((a + b).drop_last() =~= a + b.drop_last());
        if is_within(x, a + b.drop_last()) {
            lemma_within_parts(x, a, b.drop_last())
        } else {
            let (p, q) = lemma_within_parts(x.drop_last(), a, b.drop_last());
            assert(q.push(x.last()).drop_last() =~= q);
            assert(x =~= x.drop_last().push(x.last()));
            assert((p + q).push(x.last()) =~= p + q.push(x.last()));
            (p, q.push(x.last()))
        }
    }
}

proof fn lemma_within_through(a: Seq<char>, b: Seq<char>, c: Seq<char>)
    requires
        is_within(a, b),
        is_within(b, c),
    ensures
        is_within(a, c),
    decreases c.len(),
{
    if a.len() > 0 && c.len() > 0 && b.len() > 0 {
        if is_within(b, c.drop_last()) {
            lemma_within_through(a, b, c.drop_last());
        } else if is_within(a, b.drop_last()) {
            lemma_within_through(a, b.drop_last(), c.drop_last());
        } else {
            lemma_within_through(a.drop_last(), b.drop_last(), c.drop_last());
        }
    }
}

/// More in the middle, in place of something that is within it.
proof fn lemma_within_more(x: Seq<char>, a: Seq<char>, b: Seq<char>, a2: Seq<char>, b2: Seq<char>)
    requires
        is_within(x, a + b),
        is_within(a, a2),
        is_within(b, b2),
    ensures
        is_within(x, a2 + b2),
{
    let (p, q) = lemma_within_parts(x, a, b);
    lemma_within_through(p, a, a2);
    lemma_within_through(q, b, b2);
    lemma_within_both(p, a2, q, b2);
}

proof fn lemma_within_ends(a: Seq<char>, b: Seq<char>)
    ensures
        is_within(a, a + b),
        is_within(b, a + b),
{
    let none = Seq::<char>::empty();
    lemma_within_itself(a);
    lemma_within_itself(b);
    lemma_within_both(a, a, none, b);
    assert(a + none =~= a);
    lemma_within_both(none, a, b, b);
    assert(none + b =~= b);
}

// ---------------------------------------------------------------------------------------
// A whole file
// ---------------------------------------------------------------------------------------

/// The text of the first `n` rows, the blank ones between blocks left out.
pub open spec fn rows_words(rows: Seq<RowView>, n: nat) -> Seq<char>
    decreases n,
{
    if n == 0 {
        Seq::empty()
    } else {
        rows_words(rows, (n - 1) as nat) + (if rows[n - 1].blank {
            Seq::empty()
        } else {
            spans_text(rows[n - 1].spans)
        })
    }
}

/// Whether the first `n` events leave a code block open.
pub open spec fn in_code(events: Seq<(MarkdownEventView, usize)>, n: nat) -> bool
    decreases n,
{
    if n == 0 {
        false
    } else {
        match events[n - 1].0 {
            MarkdownEventView::Start(MarkdownTagView::CodeBlock(_)) => true,
            MarkdownEventView::End(MarkdownEnd::CodeBlock) => false,
            _ => in_code(events, (n - 1) as nat),
        }
    }
}

/// What the first `n` events say, what stands in code blocks left out.
pub open spec fn said_in_file(events: Seq<(MarkdownEventView, usize)>, n: nat) -> Seq<char>
    decreases n,
{
    if n == 0 {
        Seq::empty()
    } else {
        said_in_file(events, (n - 1) as nat) + (if in_code(events, (n - 1) as nat)
            && events[n - 1].0 is Text {
            Seq::empty()
        } else {
            match events[n - 1].0 {
                MarkdownEventView::Text(text) => text,
                MarkdownEventView::Code(text) => text,
                MarkdownEventView::InlineMath(text) => text,
                MarkdownEventView::DisplayMath(text) => text,
                MarkdownEventView::FootnoteReference(label) => "["@ + label + "]"@,
                MarkdownEventView::Start(MarkdownTagView::FootnoteDefinition(label)) => "["@ + label
                    + "] "@,
                _ => Seq::empty(),
            }
        })
    }
}

/// Whether an event stands in a cell of a table.
pub open spec fn is_cell(event: MarkdownEventView) -> bool {
    event == MarkdownEventView::Start(MarkdownTagView::TableCell) || event
        == MarkdownEventView::End(MarkdownEnd::TableCell)
}

/// What the sheet says: what is drawn, and what is collected.
spec fn all_told(sheet: SheetView) -> Seq<char> {
    ink(rows_words(sheet.rows, sheet.rows.len())) + ink(
        pieces_text(sheet.pieces, sheet.pieces.len()),
    )
}

/// All that was told is still, and maybe more.
spec fn tells(before: SheetView, after: SheetView) -> bool {
    &&& is_within(
        ink(rows_words(before.rows, before.rows.len())),
        ink(rows_words(after.rows, after.rows.len())),
    )
    &&& after.pieces == before.pieces
}

proof fn lemma_rows_words_same(a: Seq<RowView>, b: Seq<RowView>, n: nat)
    requires
        n <= a.len(),
        n <= b.len(),
        forall|k: int| 0 <= k < n ==> #[trigger] a[k] == b[k],
    ensures
        rows_words(a, n) == rows_words(b, n),
    decreases n,
{
    if n > 0 {
        lemma_rows_words_same(a, b, (n - 1) as nat);
        assert(a[n - 1] == b[n - 1]);
    }
}

proof fn lemma_row_tells(
    sheet: SheetView,
    spans: Seq<SpanView>,
    links: Seq<LinkView>,
    line: usize,
    page: PageView,
)
    ensures
        tells(sheet, sheet.with_row(spans, links, line, page)),
{
    let after = sheet.with_row(spans, links, line, page);
    let n = sheet.rows.len();
    lemma_rows_words_same(sheet.rows, after.rows, n);
    let text = spans_text(after.rows[n as int].spans);
    assert(rows_words(after.rows, n + 1) == rows_words(after.rows, n) + text);
    lemma_ink_joined(rows_words(sheet.rows, n), text);
    lemma_within_ends(ink(rows_words(sheet.rows, n)), ink(text));
}

proof fn lemma_tells_through(a: SheetView, b: SheetView, c: SheetView)
    requires
        tells(a, b),
        tells(b, c),
    ensures
        tells(a, c),
{
    lemma_within_through(
        ink(rows_words(a.rows, a.rows.len())),
        ink(rows_words(b.rows, b.rows.len())),
        ink(rows_words(c.rows, c.rows.len())),
    );
}

proof fn lemma_tells_itself(a: SheetView)
    ensures
        tells(a, a),
{
    lemma_within_itself(ink(rows_words(a.rows, a.rows.len())));
}

proof fn lemma_blank_tells(sheet: SheetView)
    ensures
        tells(sheet, sheet.with_blank()),
        rows_words(sheet.with_blank().rows, sheet.with_blank().rows.len()) == rows_words(
            sheet.rows,
            sheet.rows.len(),
        ),
{
    let after = sheet.with_blank();
    let n = sheet.rows.len();
    lemma_rows_words_same(sheet.rows, after.rows, n);
    if after.rows.len() > n {
        assert(after.rows[n as int].blank);
        assert(rows_words(after.rows, n + 1) =~= rows_words(after.rows, n));
    }
    lemma_within_itself(ink(rows_words(sheet.rows, n)));
}

proof fn lemma_quote_closed_tells(sheet: SheetView)
    ensures
        tells(sheet, sheet.with_quote_closed()),
{
    let after = sheet.with_quote_closed();
    let n = sheet.rows.len();
    lemma_within_itself(ink(rows_words(sheet.rows, n)));
    if n > 0 && sheet.rows.last().blank {
        lemma_rows_words_same(sheet.rows, after.rows, (n - 1) as nat);
        assert(rows_words(sheet.rows, n) =~= rows_words(sheet.rows, (n - 1) as nat));
    }
}

proof fn lemma_stroke_tells(sheet: SheetView, stroke: Seq<char>, style: Style, page: PageView)
    ensures
        tells(sheet, sheet.with_stroke(stroke, style, page)),
{
    lemma_row_tells(
        sheet,
        seq![SpanView { text: repeated(stroke, sheet.room(page)), style }],
        Seq::empty(),
        sheet.block_line,
        page,
    );
}

proof fn lemma_code_lines_tell(
    sheet: SheetView,
    lines: Seq<Seq<SpanView>>,
    k: int,
    first: usize,
    page: PageView,
)
    requires
        0 <= k,
    ensures
        tells(sheet, sheet.with_code_lines(lines, k, first, page)),
        sheet.with_code_lines(lines, k, first, page).code == sheet.code,
    decreases lines.len() - k,
{
    if k < lines.len() {
        let line = capped(first + k);
        let at = SheetView { block_line: line, ..sheet };
        let spans = seq![SpanView { text: "  "@, style: Style::spec_plain() }] + lines[k];
        let next = at.with_row(spans, Seq::empty(), line, page);
        lemma_row_tells(at, spans, Seq::empty(), line, page);
        lemma_code_lines_tell(next, lines, k + 1, first, page);
        lemma_tells_through(sheet, next, next.with_code_lines(lines, k + 1, first, page));
    } else {
        lemma_tells_itself(sheet);
    }
}

proof fn lemma_table_rows_tell(
    sheet: SheetView,
    table: TableView,
    widths: Seq<nat>,
    k: int,
    page: PageView,
)
    requires
        0 <= k,
    ensures
        tells(sheet, sheet.with_table_rows(table, widths, k, page)),
        sheet.with_table_rows(table, widths, k, page).code == sheet.code,
    decreases table.rows.len() - k,
{
    if k < table.rows.len() {
        let (cells, line) = table.rows[k];
        let border = page.styles.rule;
        let spans = row_spans(cells, widths, table.aligns, k == 0, border, widths.len());
        let row = sheet.with_row(spans, Seq::empty(), line, page);
        lemma_row_tells(sheet, spans, Seq::empty(), line, page);
        let rule = seq![SpanView { text: header_rule(widths), style: border }];
        let ruled = row.with_row(rule, Seq::empty(), line, page);
        lemma_row_tells(row, rule, Seq::empty(), line, page);
        lemma_tells_through(sheet, row, ruled);
        let next = if k == 0 {
            ruled
        } else {
            row
        };
        lemma_table_rows_tell(next, table, widths, k + 1, page);
        lemma_tells_through(sheet, next, next.with_table_rows(table, widths, k + 1, page));
    } else {
        lemma_tells_itself(sheet);
    }
}

proof fn lemma_table_tells(sheet: SheetView, table: TableView, page: PageView)
    ensures
        tells(sheet, sheet.with_table(table, page)),
        sheet.with_table(table, page).code == sheet.code,
{
    let measured = column_widths(table.rows);
    if measured.len() > 0 {
        lemma_table_rows_tell(
            sheet,
            table,
            shrunk(measured, (3 * (measured.len() - 1)) as nat, sheet.room(page)),
            0,
            page,
        );
    } else {
        lemma_tells_itself(sheet);
    }
}

/// What is told stays within what is told once more is.
proof fn lemma_told_on(x: Seq<char>, before: SheetView, after: SheetView)
    requires
        is_within(x, all_told(before)),
        tells(before, after),
    ensures
        is_within(x, all_told(after)),
{
    let pieces = ink(pieces_text(before.pieces, before.pieces.len()));
    lemma_within_itself(pieces);
    lemma_within_more(
        x,
        ink(rows_words(before.rows, before.rows.len())),
        pieces,
        ink(rows_words(after.rows, after.rows.len())),
        pieces,
    );
}

proof fn lemma_put_on(x: Seq<char>, sheet: SheetView, text: Seq<char>, style: Style, line: usize)
    requires
        is_within(x, all_told(sheet)),
    ensures
        is_within(x + ink(text), all_told(sheet.with_text(text, style, line))),
        is_within(x, all_told(sheet.with_text(text, style, line))),
{
    let after = sheet.with_text(text, style, line);
    let n = sheet.pieces.len();
    lemma_pieces_same(sheet.pieces, after.pieces, n);
    lemma_ink_joined(pieces_text(sheet.pieces, n), text);
    assert(all_told(after) =~= all_told(sheet) + ink(text));
    lemma_within_itself(ink(text));
    lemma_within_both(x, all_told(sheet), ink(text), ink(text));
    lemma_within_ends(all_told(sheet), ink(text));
    lemma_within_through(x, all_told(sheet), all_told(after));
}

/// A row says what is on it, and what stands in front of it before.
proof fn lemma_wrapped_words(sheet: SheetView, rows: Seq<WrappedView>, k: int, page: PageView)
    requires
        0 <= k <= rows.len(),
    ensures
        ({
            let after = sheet.with_wrapped(rows, k, page);
            is_within(
                ink(rows_words(sheet.rows, sheet.rows.len())) + ink(rows_text(rows.skip(k))),
                ink(rows_words(after.rows, after.rows.len())),
            )
        }),
    decreases rows.len() - k,
{
    let was = ink(rows_words(sheet.rows, sheet.rows.len()));
    let none = Seq::<char>::empty();
    assert(ink(none) =~= none);
    if k < rows.len() {
        let own = spans_text(rows[k].spans);
        let next = sheet.with_row(rows[k].spans, rows[k].links, rows[k].line, page);
        let n = sheet.rows.len();
        let front = prefix(sheet.containers, sheet.containers.len(), page.styles.list);
        lemma_rows_words_same(sheet.rows, next.rows, n);
        lemma_spans_joined(front, rows[k].spans);
        let text = spans_text(next.rows[n as int].spans);
        assert(text == spans_text(front) + own);
        lemma_ink_joined(rows_words(sheet.rows, n), text);
        lemma_ink_joined(spans_text(front), own);
        lemma_within_ends(ink(spans_text(front)), ink(own));
        lemma_within_itself(was);
        lemma_within_both(was, was, ink(own), ink(text));
        let now = ink(rows_words(next.rows, next.rows.len()));
        assert(is_within(was + ink(own), now));
        let rest = ink(rows_text(rows.skip(k + 1)));
        lemma_wrapped_words(next, rows, k + 1, page);
        lemma_rows_text_skip(rows, k);
        lemma_ink_joined(own, rows_text(rows.skip(k + 1)));
        lemma_within_itself(rest);
        lemma_within_both(was + ink(own), now, rest, rest);
        assert((was + ink(own)) + rest =~= was + ink(rows_text(rows.skip(k))));
        let after = sheet.with_wrapped(rows, k, page);
        lemma_within_through(
            was + ink(rows_text(rows.skip(k))),
            now + rest,
            ink(rows_words(after.rows, after.rows.len())),
        );
    } else {
        assert(rows.skip(k).len() == 0);
        assert(was + ink(rows_text(rows.skip(k))) =~= was);
        lemma_within_itself(was);
    }
}

proof fn lemma_spans_joined(a: Seq<SpanView>, b: Seq<SpanView>)
    ensures
        spans_text(a + b) == spans_text(a) + spans_text(b),
    decreases b.len(),
{
    if b.len() == 0 {
        assert(a + b =~= a);
        assert(spans_text(a) + spans_text(b) =~= spans_text(a));
    } else {
        lemma_spans_joined(a, b.drop_last());
        assert((a + b).drop_last() =~= a + b.drop_last());
        assert(spans_text(a + b) =~= spans_text(a) + spans_text(b));
    }
}

proof fn lemma_flushed_on(x: Seq<char>, sheet: SheetView, page: PageView)
    requires
        is_within(x, all_told(sheet)),
    ensures
        is_within(x, all_told(sheet.flushed(page))),
        sheet.flushed(page).pieces.len() == 0,
        sheet.flushed(page).code == sheet.code,
{
    let none = Seq::<char>::empty();
    assert(ink(none) =~= none);
    lemma_flushed_own(sheet, page);
    if sheet.pieces.len() > 0 {
        let rows = wrapped(sheet.pieces, sheet.room(page), page.styles.text);
        let bare = SheetView { pieces: Seq::empty(), ..sheet };
        let after = sheet.flushed(page);
        lemma_wrapped_words(bare, rows, 0, page);
        wrapping_keeps_the_text(sheet.pieces, sheet.room(page), page.styles.text);
        assert(rows.skip(0) =~= rows);
        assert(pieces_text(after.pieces, 0) =~= none);
        assert(all_told(after) =~= ink(rows_words(after.rows, after.rows.len())));
        lemma_within_through(x, all_told(sheet), all_told(after));
    }
}

proof fn lemma_inline_html_on(
    x: Seq<char>,
    sheet: SheetView,
    parts: Seq<HtmlPartView>,
    k: int,
    line: usize,
    page: PageView,
)
    requires
        is_within(x, all_told(sheet)),
        0 <= k,
    ensures
        is_within(x, all_told(sheet.with_inline_html(parts, k, line, page))),
        sheet.with_inline_html(parts, k, line, page).code == sheet.code,
    decreases parts.len() - k,
{
    if k < parts.len() {
        lemma_flushed_on(x, sheet, page);
        let next = match parts[k] {
            HtmlPartView::Break => sheet.flushed(page),
            HtmlPartView::Image(alt) => sheet.with_image(alt, line, page),
            HtmlPartView::Text(_) => sheet,
        };
        if let HtmlPartView::Image(alt) = parts[k] {
            lemma_put_on(x, sheet, image_words(alt), page.styles.dim, line);
        }
        lemma_inline_html_on(x, next, parts, k + 1, line, page);
    }
}

proof fn lemma_html_on(
    x: Seq<char>,
    sheet: SheetView,
    parts: Seq<HtmlPartView>,
    k: int,
    line: usize,
    page: PageView,
)
    requires
        is_within(x, all_told(sheet)),
        0 <= k,
    ensures
        is_within(x, all_told(sheet.with_html(parts, k, line, page))),
        sheet.with_html(parts, k, line, page).code == sheet.code,
    decreases parts.len() - k,
{
    if k < parts.len() {
        lemma_flushed_on(x, sheet, page);
        let next = match parts[k] {
            HtmlPartView::Text(text) => sheet.with_text(text, page.styles.text, line),
            HtmlPartView::Image(alt) => sheet.with_image(alt, line, page),
            HtmlPartView::Break => sheet.flushed(page),
        };
        match parts[k] {
            HtmlPartView::Text(text) => lemma_put_on(x, sheet, text, page.styles.text, line),
            HtmlPartView::Image(alt) => lemma_put_on(
                x,
                sheet,
                image_words(alt),
                page.styles.dim,
                line,
            ),
            HtmlPartView::Break => {},
        }
        lemma_html_on(x, next, parts, k + 1, line, page);
    }
}

/// A sheet that tells the same, whatever else of it is another.
proof fn lemma_same_on(x: Seq<char>, before: SheetView, after: SheetView)
    requires
        is_within(x, all_told(before)),
        after.rows == before.rows,
        after.pieces == before.pieces,
    ensures
        is_within(x, all_told(after)),
{
}

proof fn lemma_started_on(
    x: Seq<char>,
    sheet: SheetView,
    tag: MarkdownTagView,
    offset: usize,
    page: PageView,
)
    requires
        is_within(x, all_told(sheet)),
        tag != MarkdownTagView::TableCell,
    ensures
        is_within(
            x + (match tag {
                MarkdownTagView::FootnoteDefinition(label) => ink("["@ + label + "] "@),
                _ => Seq::empty(),
            }),
            all_told(sheet.started(tag, offset, page)),
        ),
        sheet.started(tag, offset, page).code is Some == (tag is CodeBlock || sheet.code is Some),
{
    let line = page.line_of(offset);
    let after = sheet.started(tag, offset, page);
    let flushed = sheet.flushed(page);
    assert(x + Seq::<char>::empty() =~= x);
    lemma_flushed_on(x, sheet, page);
    match tag {
        MarkdownTagView::BlockQuote(Some(kind)) => {
            let (label, style) = page.styles.spec_alert(kind);
            let open = flushed.at_line(line).with_container(ContainerView::Quote(style));
            lemma_same_on(x, flushed, open);
            let spans = seq![SpanView { text: label, style: style.spec_bold() }];
            lemma_row_tells(open, spans, Seq::empty(), line, page);
            lemma_told_on(x, open, open.with_row(spans, Seq::empty(), line, page));
        },
        MarkdownTagView::FootnoteDefinition(label) => {
            let open = flushed.at_line(line);
            lemma_same_on(x, flushed, open);
            lemma_put_on(x, open, "["@ + label + "] "@, page.styles.link, line);
        },
        MarkdownTagView::Image => {
            lemma_put_on(x, sheet, "[image: "@, page.styles.dim, line);
            lemma_same_on(x, sheet.with_text("[image: "@, page.styles.dim, line), after);
        },
        MarkdownTagView::Heading(_)
        | MarkdownTagView::BlockQuote(None)
        | MarkdownTagView::CodeBlock(_)
        | MarkdownTagView::HtmlBlock
        | MarkdownTagView::List(_)
        | MarkdownTagView::Item
        | MarkdownTagView::Table(_) => {
            lemma_same_on(x, flushed, after);
        },
        _ => {
            lemma_same_on(x, sheet, after);
        },
    }
}

proof fn lemma_ended_on(
    x: Seq<char>,
    sheet: SheetView,
    tag: MarkdownEnd,
    highlighted: Seq<Seq<Seq<SpanView>>>,
    page: PageView,
)
    requires
        is_within(x, all_told(sheet)),
        tag != MarkdownEnd::TableCell,
    ensures
        is_within(x, all_told(sheet.ended(tag, highlighted, page))),
        sheet.ended(tag, highlighted, page).code is Some == (tag != MarkdownEnd::CodeBlock
            && sheet.code is Some),
{
    let after = sheet.ended(tag, highlighted, page);
    let flushed = sheet.flushed(page);
    lemma_flushed_on(x, sheet, page);
    match tag {
        MarkdownEnd::Paragraph | MarkdownEnd::FootnoteDefinition => {
            lemma_blank_tells(flushed);
            lemma_told_on(x, flushed, after);
        },
        MarkdownEnd::Heading(level) => {
            let plain = sheet.without_inline();
            lemma_same_on(x, sheet, plain);
            lemma_flushed_on(x, plain, page);
            let text = plain.flushed(page);
            let ruled = match level {
                Level::H1 => text.with_stroke("━"@, page.styles.h1, page),
                Level::H2 => text.with_stroke("─"@, page.styles.rule, page),
                _ => text,
            };
            lemma_stroke_tells(text, "━"@, page.styles.h1, page);
            lemma_stroke_tells(text, "─"@, page.styles.rule, page);
            lemma_tells_itself(text);
            lemma_told_on(x, text, ruled);
            lemma_blank_tells(ruled);
            lemma_told_on(x, ruled, after);
        },
        MarkdownEnd::BlockQuote => {
            let closed = flushed.with_quote_closed();
            lemma_quote_closed_tells(flushed);
            lemma_told_on(x, flushed, closed);
            lemma_blank_tells(closed);
            lemma_told_on(x, closed, after);
        },
        MarkdownEnd::HtmlBlock => {
            let parts = match sheet.html {
                Some(html) => shown(html),
                None => shown(Seq::empty()),
            };
            let rest = SheetView { html: None, ..sheet };
            lemma_same_on(x, sheet, rest);
            lemma_html_on(x, rest, parts, 0, sheet.block_line, page);
            let read = rest.with_html(parts, 0, sheet.block_line, page);
            lemma_flushed_on(x, read, page);
            lemma_blank_tells(read.flushed(page));
            lemma_told_on(x, read.flushed(page), after);
        },
        MarkdownEnd::CodeBlock => {
            if sheet.code is Some {
                let rest = SheetView { code: None, ..sheet };
                lemma_same_on(x, sheet, rest);
                if sheet.blocks < highlighted.len() {
                    let next = SheetView { blocks: (sheet.blocks + 1) as usize, ..rest };
                    let lines = highlighted[sheet.blocks as int];
                    lemma_same_on(x, rest, next);
                    lemma_code_lines_tell(next, lines, 0, sheet.block_line, page);
                    let drawn = next.with_code_lines(lines, 0, sheet.block_line, page);
                    lemma_told_on(x, next, drawn);
                    lemma_blank_tells(drawn);
                    lemma_told_on(x, drawn, after);
                } else {
                    lemma_blank_tells(rest);
                    lemma_told_on(x, rest, after);
                }
            }
        },
        MarkdownEnd::List => {
            let rest = flushed.without_container();
            lemma_same_on(x, flushed, rest);
            lemma_blank_tells(rest);
            lemma_told_on(x, rest, rest.with_blank());
        },
        MarkdownEnd::Item => {
            lemma_same_on(x, flushed, after);
        },
        MarkdownEnd::Table => {
            lemma_blank_tells(sheet);
            lemma_told_on(x, sheet, sheet.with_blank());
            if let Some(table) = sheet.table {
                let rest = SheetView { table: None, ..sheet };
                lemma_same_on(x, sheet, rest);
                lemma_table_tells(rest, table, page);
                let drawn = rest.with_table(table, page);
                lemma_told_on(x, rest, drawn);
                lemma_blank_tells(drawn);
                lemma_told_on(x, drawn, after);
            }
        },
        MarkdownEnd::Image => {
            let rest = sheet.without_inline();
            lemma_same_on(x, sheet, rest);
            let at = if sheet.pieces.len() > 0 {
                sheet.pieces.last().line
            } else {
                sheet.block_line
            };
            lemma_put_on(x, rest, "]"@, page.styles.dim, at);
        },
        _ => {
            lemma_same_on(x, sheet, after);
        },
    }
}

proof fn lemma_event_on(
    x: Seq<char>,
    sheet: SheetView,
    events: Seq<(MarkdownEventView, usize)>,
    k: int,
    highlighted: Seq<Seq<Seq<SpanView>>>,
    page: PageView,
)
    requires
        0 <= k < events.len(),
        is_within(x, all_told(sheet)),
        x == ink(said_in_file(events, k as nat)),
        sheet.code is Some == in_code(events, k as nat),
        !is_cell(events[k].0),
    ensures
        ({
            let after = sheet.after(events[k].0, events[k].1, highlighted, page);
            &&& is_within(ink(said_in_file(events, (k + 1) as nat)), all_told(after))
            &&& after.code is Some == in_code(events, (k + 1) as nat)
        }),
{
    let (event, offset) = events[k];
    let line = page.line_of(offset);
    let after = sheet.after(event, offset, highlighted, page);
    let none = Seq::<char>::empty();
    let said = if in_code(events, k as nat) && event is Text {
        none
    } else {
        match event {
            MarkdownEventView::Text(text) => text,
            MarkdownEventView::Code(text) => text,
            MarkdownEventView::InlineMath(text) => text,
            MarkdownEventView::DisplayMath(text) => text,
            MarkdownEventView::FootnoteReference(label) => "["@ + label + "]"@,
            MarkdownEventView::Start(MarkdownTagView::FootnoteDefinition(label)) => "["@ + label
                + "] "@,
            _ => none,
        }
    };
    assert(said_in_file(events, (k + 1) as nat) == said_in_file(events, k as nat) + said);
    lemma_ink_joined(said_in_file(events, k as nat), said);
    assert(ink(none) =~= none);
    assert(x + none =~= x);
    match event {
        MarkdownEventView::Start(tag) => lemma_started_on(x, sheet, tag, offset, page),
        MarkdownEventView::End(tag) => lemma_ended_on(x, sheet, tag, highlighted, page),
        MarkdownEventView::Text(text) => {
            if sheet.code is Some {
                lemma_same_on(x, sheet, after);
            } else {
                lemma_put_on(x, sheet, text, sheet.style(page), line);
            }
        },
        MarkdownEventView::Code(text)
        | MarkdownEventView::InlineMath(text)
        | MarkdownEventView::DisplayMath(text) => {
            let style = sheet.style(page).spec_patch(page.styles.code);
            lemma_put_on(x, sheet, text, style, line);
        },
        MarkdownEventView::FootnoteReference(label) => {
            lemma_put_on(x, sheet, "["@ + label + "]"@, page.styles.link, line);
        },
        MarkdownEventView::SoftBreak => {
            lemma_put_on(x, sheet, " "@, sheet.style(page), line);
        },
        MarkdownEventView::HardBreak => {
            lemma_flushed_on(x, sheet, page);
        },
        MarkdownEventView::InlineHtml(html) => {
            lemma_inline_html_on(x, sheet, shown(html), 0, line, page);
        },
        MarkdownEventView::Rule => {
            lemma_flushed_on(x, sheet, page);
            let at = sheet.flushed(page).at_line(line);
            lemma_same_on(x, sheet.flushed(page), at);
            let ruled = at.with_stroke("─"@, page.styles.rule, page);
            lemma_stroke_tells(at, "─"@, page.styles.rule, page);
            lemma_told_on(x, at, ruled);
            lemma_blank_tells(ruled);
            lemma_told_on(x, ruled, after);
        },
        MarkdownEventView::Html(_) | MarkdownEventView::TaskListMarker(_) => {
            lemma_same_on(x, sheet, after);
        },
    }
}

proof fn lemma_file_on(
    sheet: SheetView,
    events: Seq<(MarkdownEventView, usize)>,
    k: int,
    highlighted: Seq<Seq<Seq<SpanView>>>,
    page: PageView,
)
    requires
        0 <= k <= events.len(),
        is_within(ink(said_in_file(events, k as nat)), all_told(sheet)),
        sheet.code is Some == in_code(events, k as nat),
        forall|j: int| 0 <= j < events.len() ==> !is_cell((#[trigger] events[j]).0),
    ensures
        is_within(
            ink(said_in_file(events, events.len())),
            all_told(sheet.after_all(events, k, highlighted, page)),
        ),
    decreases events.len() - k,
{
    if k < events.len() {
        assert(!is_cell(events[k].0));
        lemma_event_on(
            ink(said_in_file(events, k as nat)),
            sheet,
            events,
            k,
            highlighted,
            page,
        );
        let next = sheet.after(events[k].0, events[k].1, highlighted, page);
        lemma_file_on(next, events, k + 1, highlighted, page);
    }
}

proof fn lemma_last_blanks(rows: Seq<RowView>)
    ensures
        rows_words(without_last_blanks(rows), without_last_blanks(rows).len()) == rows_words(
            rows,
            rows.len(),
        ),
    decreases rows.len(),
{
    if rows.len() > 0 && rows.last().blank {
        let rest = rows.drop_last();
        lemma_last_blanks(rest);
        lemma_rows_words_same(rows, rest, rest.len());
        assert(rows_words(rows, rows.len()) =~= rows_words(rest, rest.len()));
    }
}

/// Whatever a file is made of, what it says is drawn: of headings, paragraphs, lists, quotes
/// and footnotes all text, inline code and mathematics is in the rows, in the order it is read
/// in, but for white space. Cells of tables, which may be cut, are left out.
pub proof fn all_that_is_said_is_drawn(
    events: Seq<(MarkdownEventView, usize)>,
    highlighted: Seq<Seq<Seq<SpanView>>>,
    page: PageView,
)
    requires
        forall|j: int| 0 <= j < events.len() ==> !is_cell((#[trigger] events[j]).0),
    ensures
        ({
            let rows = rows_of(events, highlighted, page);
            is_within(ink(said_in_file(events, events.len())), ink(rows_words(rows, rows.len())))
        }),
{
    let none = Seq::<char>::empty();
    let sheet = SheetView::new();
    assert(ink(none) =~= none);
    lemma_file_on(sheet, events, 0, highlighted, page);
    let read = sheet.after_all(events, 0, highlighted, page);
    let said = ink(said_in_file(events, events.len()));
    lemma_flushed_on(said, read, page);
    let drawn = read.flushed(page);
    assert(pieces_text(drawn.pieces, 0) =~= none);
    assert(all_told(drawn) =~= ink(rows_words(drawn.rows, drawn.rows.len())));
    lemma_last_blanks(drawn.rows);
}

} // verus!
