//! What holds of every file that is drawn.

use crate::graphics::{SpanView, Style};
use crate::markdown::events::{MarkdownEnd, MarkdownEventView, MarkdownTagView};
use crate::markdown::html::{shown, HtmlPartView};
use crate::markdown::render::{rows_of, without_last_blanks};
use crate::markdown::sheet::{ContainerView, PageView, RowView, SheetView, TableView};
use crate::markdown::table::{column_widths, shrunk};
use crate::markdown::wrap::{wrapped, LinkView, WrappedView};
use vstd::prelude::*;

verus! {

/// The first row is not blank, and no two blank rows stand together.
pub open spec fn spaced(rows: Seq<RowView>) -> bool {
    &&& rows.len() > 0 ==> !rows[0].blank
    &&& forall|i: int|
        0 <= i < rows.len() - 1 ==> !((#[trigger] rows[i]).blank && rows[i + 1].blank)
}

proof fn lemma_row(
    sheet: SheetView,
    spans: Seq<SpanView>,
    links: Seq<LinkView>,
    line: usize,
    page: PageView,
)
    requires
        spaced(sheet.rows),
    ensures
        spaced(sheet.with_row(spans, links, line, page).rows),
{
    let rows = sheet.with_row(spans, links, line, page).rows;
    assert forall|i: int| 0 <= i < rows.len() - 1 implies !((#[trigger] rows[i]).blank && rows[i
        + 1].blank) by {
        assert(rows[i] == sheet.rows[i]);
    }
}

proof fn lemma_blank(sheet: SheetView)
    requires
        spaced(sheet.rows),
    ensures
        spaced(sheet.with_blank().rows),
{
    let rows = sheet.with_blank().rows;
    assert forall|i: int| 0 <= i < rows.len() - 1 implies !((#[trigger] rows[i]).blank && rows[i
        + 1].blank) by {
        assert(rows[i] == sheet.rows[i]);
    }
}

proof fn lemma_wrapped_rows(sheet: SheetView, rows: Seq<WrappedView>, k: int, page: PageView)
    requires
        spaced(sheet.rows),
        0 <= k,
    ensures
        spaced(sheet.with_wrapped(rows, k, page).rows),
    decreases rows.len() - k,
{
    if k < rows.len() {
        lemma_row(sheet, rows[k].spans, rows[k].links, rows[k].line, page);
        lemma_wrapped_rows(
            sheet.with_row(rows[k].spans, rows[k].links, rows[k].line, page),
            rows,
            k + 1,
            page,
        );
    }
}

proof fn lemma_flushed(sheet: SheetView, page: PageView)
    requires
        spaced(sheet.rows),
    ensures
        spaced(sheet.flushed(page).rows),
{
    if sheet.pieces.len() > 0 {
        lemma_wrapped_rows(
            SheetView { pieces: Seq::empty(), ..sheet },
            wrapped(sheet.pieces, sheet.room(page), page.styles.text),
            0,
            page,
        );
    }
}

proof fn lemma_quote_closed(sheet: SheetView)
    requires
        spaced(sheet.rows),
    ensures
        spaced(sheet.with_quote_closed().rows),
{
    let rows = sheet.with_quote_closed().rows;
    assert forall|i: int| 0 <= i < rows.len() - 1 implies !((#[trigger] rows[i]).blank && rows[i
        + 1].blank) by {
        assert(rows[i] == sheet.rows[i]);
    }
}

proof fn lemma_stroke(sheet: SheetView, stroke: Seq<char>, style: Style, page: PageView)
    requires
        spaced(sheet.rows),
    ensures
        spaced(sheet.with_stroke(stroke, style, page).rows),
{
    let text = crate::text::repeated(stroke, sheet.room(page));
    lemma_row(sheet, seq![SpanView { text, style }], Seq::empty(), sheet.block_line, page);
}

proof fn lemma_code_lines(
    sheet: SheetView,
    lines: Seq<Seq<SpanView>>,
    k: int,
    first: usize,
    page: PageView,
)
    requires
        spaced(sheet.rows),
        0 <= k,
    ensures
        spaced(sheet.with_code_lines(lines, k, first, page).rows),
    decreases lines.len() - k,
{
    if k < lines.len() {
        let line = crate::width::capped(first + k);
        let at = SheetView { block_line: line, ..sheet };
        let spans = seq![SpanView { text: "  "@, style: Style::spec_plain() }] + lines[k];
        lemma_row(at, spans, Seq::empty(), line, page);
        lemma_code_lines(at.with_row(spans, Seq::empty(), line, page), lines, k + 1, first, page);
    }
}

proof fn lemma_table_rows(
    sheet: SheetView,
    table: TableView,
    widths: Seq<nat>,
    k: int,
    page: PageView,
)
    requires
        spaced(sheet.rows),
        0 <= k,
    ensures
        spaced(sheet.with_table_rows(table, widths, k, page).rows),
    decreases table.rows.len() - k,
{
    if k < table.rows.len() {
        let (cells, line) = table.rows[k];
        let border = page.styles.rule;
        let spans = crate::markdown::sheet::row_spans(
            cells,
            widths,
            table.aligns,
            k == 0,
            border,
            widths.len(),
        );
        let row = sheet.with_row(spans, Seq::empty(), line, page);
        lemma_row(sheet, spans, Seq::empty(), line, page);
        let rule = seq![
            SpanView { text: crate::markdown::table::header_rule(widths), style: border },
        ];
        lemma_row(row, rule, Seq::empty(), line, page);
        let next = if k == 0 {
            row.with_row(rule, Seq::empty(), line, page)
        } else {
            row
        };
        lemma_table_rows(next, table, widths, k + 1, page);
    }
}

proof fn lemma_table(sheet: SheetView, table: TableView, page: PageView)
    requires
        spaced(sheet.rows),
    ensures
        spaced(sheet.with_table(table, page).rows),
{
    let measured = column_widths(table.rows);
    if measured.len() > 0 {
        lemma_table_rows(
            sheet,
            table,
            shrunk(measured, (3 * (measured.len() - 1)) as nat, sheet.room(page)),
            0,
            page,
        );
    }
}

proof fn lemma_inline_html(
    sheet: SheetView,
    parts: Seq<HtmlPartView>,
    k: int,
    line: usize,
    page: PageView,
)
    requires
        spaced(sheet.rows),
        0 <= k,
    ensures
        spaced(sheet.with_inline_html(parts, k, line, page).rows),
    decreases parts.len() - k,
{
    if k < parts.len() {
        lemma_flushed(sheet, page);
        let next = match parts[k] {
            HtmlPartView::Break => sheet.flushed(page),
            HtmlPartView::Image(alt) => sheet.with_image(alt, line, page),
            HtmlPartView::Text(_) => sheet,
        };
        lemma_inline_html(next, parts, k + 1, line, page);
    }
}

proof fn lemma_html(
    sheet: SheetView,
    parts: Seq<HtmlPartView>,
    k: int,
    line: usize,
    page: PageView,
)
    requires
        spaced(sheet.rows),
        0 <= k,
    ensures
        spaced(sheet.with_html(parts, k, line, page).rows),
    decreases parts.len() - k,
{
    if k < parts.len() {
        lemma_flushed(sheet, page);
        let next = match parts[k] {
            HtmlPartView::Text(text) => sheet.with_text(text, page.styles.text, line),
            HtmlPartView::Image(alt) => sheet.with_image(alt, line, page),
            HtmlPartView::Break => sheet.flushed(page),
        };
        lemma_html(next, parts, k + 1, line, page);
    }
}

proof fn lemma_started(sheet: SheetView, tag: MarkdownTagView, offset: usize, page: PageView)
    requires
        spaced(sheet.rows),
    ensures
        spaced(sheet.started(tag, offset, page).rows),
{
    lemma_flushed(sheet, page);
    if let MarkdownTagView::BlockQuote(Some(kind)) = tag {
        let line = page.line_of(offset);
        let (label, style) = page.styles.spec_alert(kind);
        let open = sheet.flushed(page).at_line(line).with_container(ContainerView::Quote(style));
        lemma_row(
            open,
            seq![SpanView { text: label, style: style.spec_bold() }],
            Seq::empty(),
            line,
            page,
        );
    }
}

proof fn lemma_ended(
    sheet: SheetView,
    tag: MarkdownEnd,
    highlighted: Seq<Seq<Seq<SpanView>>>,
    page: PageView,
)
    requires
        spaced(sheet.rows),
    ensures
        spaced(sheet.ended(tag, highlighted, page).rows),
{
    lemma_flushed(sheet, page);
    let flushed = sheet.flushed(page);
    match tag {
        MarkdownEnd::Paragraph | MarkdownEnd::FootnoteDefinition => lemma_blank(flushed),
        MarkdownEnd::Heading(level) => {
            let plain = sheet.without_inline();
            lemma_flushed(plain, page);
            let text = plain.flushed(page);
            lemma_stroke(text, "━"@, page.styles.h1, page);
            lemma_stroke(text, "─"@, page.styles.rule, page);
            lemma_blank(text.with_stroke("━"@, page.styles.h1, page));
            lemma_blank(text.with_stroke("─"@, page.styles.rule, page));
            lemma_blank(text);
        },
        MarkdownEnd::BlockQuote => {
            lemma_quote_closed(flushed);
            lemma_blank(flushed.with_quote_closed());
        },
        MarkdownEnd::HtmlBlock => {
            let parts = match sheet.html {
                Some(html) => shown(html),
                None => shown(Seq::empty()),
            };
            let rest = SheetView { html: None, ..sheet };
            lemma_html(rest, parts, 0, sheet.block_line, page);
            let drawn = rest.with_html(parts, 0, sheet.block_line, page);
            lemma_flushed(drawn, page);
            lemma_blank(drawn.flushed(page));
        },
        MarkdownEnd::CodeBlock => {
            let rest = SheetView { code: None, ..sheet };
            lemma_blank(rest);
            if sheet.blocks < highlighted.len() {
                let next = SheetView { blocks: (sheet.blocks + 1) as usize, ..rest };
                let lines = highlighted[sheet.blocks as int];
                lemma_code_lines(next, lines, 0, sheet.block_line, page);
                lemma_blank(next.with_code_lines(lines, 0, sheet.block_line, page));
            }
        },
        MarkdownEnd::List => lemma_blank(flushed.without_container()),
        MarkdownEnd::Table => {
            lemma_blank(sheet);
            if let Some(table) = sheet.table {
                let rest = SheetView { table: None, ..sheet };
                lemma_table(rest, table, page);
                lemma_blank(rest.with_table(table, page));
            }
        },
        _ => {},
    }
}

proof fn lemma_after(
    sheet: SheetView,
    event: MarkdownEventView,
    offset: usize,
    highlighted: Seq<Seq<Seq<SpanView>>>,
    page: PageView,
)
    requires
        spaced(sheet.rows),
    ensures
        spaced(sheet.after(event, offset, highlighted, page).rows),
{
    let line = page.line_of(offset);
    match event {
        MarkdownEventView::Start(tag) => lemma_started(sheet, tag, offset, page),
        MarkdownEventView::End(tag) => lemma_ended(sheet, tag, highlighted, page),
        MarkdownEventView::InlineHtml(html) => lemma_inline_html(sheet, shown(html), 0, line, page),
        MarkdownEventView::HardBreak => lemma_flushed(sheet, page),
        MarkdownEventView::Rule => {
            lemma_flushed(sheet, page);
            let at = sheet.flushed(page).at_line(line);
            lemma_stroke(at, "─"@, page.styles.rule, page);
            lemma_blank(at.with_stroke("─"@, page.styles.rule, page));
        },
        _ => {},
    }
}

proof fn lemma_after_all(
    sheet: SheetView,
    events: Seq<(MarkdownEventView, usize)>,
    k: int,
    highlighted: Seq<Seq<Seq<SpanView>>>,
    page: PageView,
)
    requires
        spaced(sheet.rows),
        0 <= k,
    ensures
        spaced(sheet.after_all(events, k, highlighted, page).rows),
    decreases events.len() - k,
{
    if k < events.len() {
        lemma_after(sheet, events[k].0, events[k].1, highlighted, page);
        lemma_after_all(
            sheet.after(events[k].0, events[k].1, highlighted, page),
            events,
            k + 1,
            highlighted,
            page,
        );
    }
}

proof fn lemma_trimmed(rows: Seq<RowView>)
    requires
        spaced(rows),
    ensures
        spaced(without_last_blanks(rows)),
        without_last_blanks(rows).len() > 0 ==> !without_last_blanks(rows).last().blank,
    decreases rows.len(),
{
    if rows.len() > 0 && rows.last().blank {
        let rest = rows.drop_last();
        assert forall|i: int| 0 <= i < rest.len() - 1 implies !((#[trigger] rest[i]).blank && rest[i
            + 1].blank) by {
            assert(rest[i] == rows[i]);
        }
        lemma_trimmed(rest);
    }
}

/// Blocks are one blank row apart: whatever the file, no blank row comes first or last, and
/// no two stand together.
pub proof fn blocks_are_one_blank_row_apart(
    events: Seq<(MarkdownEventView, usize)>,
    highlighted: Seq<Seq<Seq<SpanView>>>,
    page: PageView,
)
    ensures
        spaced(rows_of(events, highlighted, page)),
        rows_of(events, highlighted, page).len() > 0 ==> !rows_of(
            events,
            highlighted,
            page,
        ).last().blank,
{
    let sheet = SheetView::new();
    lemma_after_all(sheet, events, 0, highlighted, page);
    let drawn = sheet.after_all(events, 0, highlighted, page);
    lemma_flushed(drawn, page);
    lemma_trimmed(drawn.flushed(page).rows);
}

} // verus!
