//! How what a Markdown file says looks: emphasis, links, headings, lists, quotes and code.

use crate::graphics::{Modifiers, SpanView, Style, UnderlineStyle};
use crate::markdown::events::{Level, MarkdownEnd, MarkdownEventView, MarkdownTagView};
use crate::markdown::render::bullet;
use crate::markdown::sheet::{layered, prefix, ContainerView, PageView, SheetView, Styles};
use crate::markdown::table::blanks;
use crate::text::decimal;
use crate::width::width_of_text;
use vstd::prelude::*;

verus! {

/// The sheet once a tag has opened and a text has been read in it.
pub open spec fn with_words_in(
    sheet: SheetView,
    tag: MarkdownTagView,
    text: Seq<char>,
    offset: usize,
    highlighted: Seq<Seq<Seq<SpanView>>>,
    page: PageView,
) -> SheetView {
    sheet.after(MarkdownEventView::Start(tag), offset, highlighted, page).after(
        MarkdownEventView::Text(text),
        offset,
        highlighted,
        page,
    )
}

proof fn lemma_layered(a: Seq<Style>, b: Seq<Style>, n: nat, base: Style)
    requires
        n <= a.len(),
        n <= b.len(),
        forall|i: int| 0 <= i < n ==> #[trigger] a[i] == b[i],
    ensures
        layered(a, n, base) == layered(b, n, base),
    decreases n,
{
    if n > 0 {
        lemma_layered(a, b, (n - 1) as nat, base);
        assert(a[n - 1] == b[n - 1]);
    }
}

proof fn lemma_inner_style(sheet: SheetView, style: Style, page: PageView)
    ensures
        sheet.with_inline(style).style(page) == sheet.style(page).spec_patch(style),
{
    let more = sheet.inline.push(style);
    lemma_layered(sheet.inline, more, sheet.inline.len(), page.styles.text);
}

/// Emphasis is drawn in italics, strong emphasis in bold and what is struck out crossed out,
/// over the look of what it stands in, which is the look again behind it.
pub proof fn emphasis_shows(
    sheet: SheetView,
    text: Seq<char>,
    offset: usize,
    highlighted: Seq<Seq<Seq<SpanView>>>,
    page: PageView,
)
    requires
        sheet.code is None,
    ensures
        ({
            let look = sheet.style(page);
            let read = |tag: MarkdownTagView|
                with_words_in(sheet, tag, text, offset, highlighted, page);
            let close = |tag: MarkdownTagView, end: MarkdownEnd|
                with_words_in(sheet, tag, text, offset, highlighted, page).after(
                    MarkdownEventView::End(end),
                    offset,
                    highlighted,
                    page,
                );
            let italic = read(MarkdownTagView::Emphasis).pieces.last();
            let bold = read(MarkdownTagView::Strong).pieces.last();
            let struck = read(MarkdownTagView::Strikethrough).pieces.last();
            &&& italic.text == text && bold.text == text && struck.text == text
            &&& italic.style.add_modifier == (Modifiers { italic: true, ..look.add_modifier })
            &&& bold.style.add_modifier == (Modifiers { bold: true, ..look.add_modifier })
            &&& struck.style.add_modifier == (Modifiers { crossed_out: true, ..look.add_modifier })
            &&& italic.style.fg == look.fg && bold.style.fg == look.fg && struck.style.fg == look.fg
            &&& italic.style.bg == look.bg && bold.style.bg == look.bg && struck.style.bg == look.bg
            &&& close(MarkdownTagView::Emphasis, MarkdownEnd::Emphasis).style(page) == look
            &&& close(MarkdownTagView::Strong, MarkdownEnd::Strong).style(page) == look
            &&& close(MarkdownTagView::Strikethrough, MarkdownEnd::Strikethrough).style(page)
                == look
        }),
{
    let italic = crate::markdown::render::italic();
    let struck = crate::markdown::render::crossed_out();
    let bold = Style::spec_plain().spec_bold();
    lemma_inner_style(sheet, italic, page);
    lemma_inner_style(sheet, struck, page);
    lemma_inner_style(sheet, bold, page);
    assert(sheet.inline.push(italic).drop_last() =~= sheet.inline);
    assert(sheet.inline.push(struck).drop_last() =~= sheet.inline);
    assert(sheet.inline.push(bold).drop_last() =~= sheet.inline);
}

/// The text of a link leads where the link does, and is drawn as links are; behind the link
/// text leads nowhere. Text in no link leads nowhere, and is drawn as what it stands in.
pub proof fn links_lead_where_they_say(
    sheet: SheetView,
    target: Seq<char>,
    text: Seq<char>,
    offset: usize,
    highlighted: Seq<Seq<Seq<SpanView>>>,
    page: PageView,
)
    requires
        sheet.code is None,
    ensures
        ({
            let read = with_words_in(
                sheet,
                MarkdownTagView::Link(target),
                text,
                offset,
                highlighted,
                page,
            );
            let piece = read.pieces.last();
            let closed = read.after(
                MarkdownEventView::End(MarkdownEnd::Link),
                offset,
                highlighted,
                page,
            );
            let plain = sheet.after(MarkdownEventView::Text(text), offset, highlighted, page);
            &&& piece.text == text
            &&& piece.link == Some(target)
            &&& piece.style == sheet.style(page).spec_patch(page.styles.link)
            &&& closed.link is None
            &&& closed.style(page) == sheet.style(page)
            &&& plain.pieces.last().text == text
            &&& plain.pieces.last().link == sheet.link
            &&& plain.pieces.last().style == sheet.style(page)
        }),
{
    lemma_inner_style(sheet, page.styles.link, page);
    assert(sheet.inline.push(page.styles.link).drop_last() =~= sheet.inline);
}

/// Inline code is drawn in the colours of code, over the look of what it stands in.
pub proof fn code_shows(
    sheet: SheetView,
    text: Seq<char>,
    offset: usize,
    highlighted: Seq<Seq<Seq<SpanView>>>,
    page: PageView,
)
    ensures
        ({
            let piece = sheet.after(
                MarkdownEventView::Code(text),
                offset,
                highlighted,
                page,
            ).pieces.last();
            &&& piece.text == text
            &&& page.styles.code.fg is Some ==> piece.style.fg == page.styles.code.fg
            &&& page.styles.code.fg is None ==> piece.style.fg == sheet.style(page).fg
            &&& page.styles.code.bg is Some ==> piece.style.bg == page.styles.code.bg
            &&& page.styles.code.bg is None ==> piece.style.bg == sheet.style(page).bg
            &&& piece.link == sheet.link
            &&& piece.line == page.line_of(offset)
        }),
{
}

/// A heading is drawn in the style of its level, in bold, and no other is.
pub proof fn headings_show_their_level(
    sheet: SheetView,
    level: Level,
    text: Seq<char>,
    offset: usize,
    highlighted: Seq<Seq<Seq<SpanView>>>,
    theme: Styles,
    width: usize,
    starts: Seq<usize>,
)
    requires
        sheet.code is None,
        sheet.pieces.len() == 0,
        sheet.inline.len() == 0,
    ensures
        ({
            let page = PageView { width, styles: Styles::drawn_with(theme), starts };
            let piece = with_words_in(
                sheet,
                MarkdownTagView::Heading(level),
                text,
                offset,
                highlighted,
                page,
            ).pieces.last();
            let own = match level {
                Level::H1 => theme.h1,
                Level::H2 => theme.h2,
                Level::H3 => theme.h3,
                Level::H4 => theme.h4,
                Level::H5 => theme.h5,
                Level::H6 => theme.h6,
            };
            &&& piece.text == text
            &&& piece.style.add_modifier.bold
            &&& own.fg is Some ==> piece.style.fg == own.fg
            &&& own.fg is None ==> piece.style.fg == theme.text.fg
        }),
        Styles::drawn_with(theme).link.underline_style == Some(UnderlineStyle::Line),
        Styles::drawn_with(theme).text == theme.text && Styles::drawn_with(theme).code
            == theme.code && Styles::drawn_with(theme).quote == theme.quote && Styles::drawn_with(
            theme,
        ).list == theme.list,
{
    let page = PageView { width, styles: Styles::drawn_with(theme), starts };
    let open = sheet.after(
        MarkdownEventView::Start(MarkdownTagView::Heading(level)),
        offset,
        highlighted,
        page,
    );
    assert(open.inline =~= seq![page.styles.spec_heading(level)]);
    reveal_with_fuel(layered, 2);
}

// ---------------------------------------------------------------------------------------
// Lists and quotes
// ---------------------------------------------------------------------------------------

/// The items of a numbered list are numbered one after the other from where it starts.
pub proof fn items_are_counted(
    sheet: SheetView,
    start: u64,
    offset: usize,
    highlighted: Seq<Seq<Seq<SpanView>>>,
    page: PageView,
)
    requires
        sheet.pieces.len() == 0,
        start < u64::MAX,
    ensures
        ({
            let open = sheet.after(
                MarkdownEventView::Start(MarkdownTagView::List(Some(start))),
                offset,
                highlighted,
                page,
            );
            let one = open.after(
                MarkdownEventView::Start(MarkdownTagView::Item),
                offset,
                highlighted,
                page,
            );
            let between = one.after(
                MarkdownEventView::End(MarkdownEnd::Item),
                offset,
                highlighted,
                page,
            );
            let two = between.after(
                MarkdownEventView::Start(MarkdownTagView::Item),
                offset,
                highlighted,
                page,
            );
            &&& one.containers.last() == ContainerView::Item {
                marker: decimal(start as nat) + ". "@,
                used: false,
            }
            &&& two.containers.last() == ContainerView::Item {
                marker: decimal((start + 1) as nat) + ". "@,
                used: false,
            }
            &&& two.containers.len() == one.containers.len()
            &&& between.containers.len() == open.containers.len()
        }),
{
}

/// The items of a list without numbers have the bullet of their depth: a list in a list has
/// another, and the fourth that of the first.
pub proof fn bullets_tell_the_depth(depth: nat)
    requires
        depth > 0,
    ensures
        bullet(depth) != bullet(depth + 1),
        bullet(depth) != bullet(depth + 2),
        bullet(depth) == bullet(depth + 3),
{
    reveal_strlit("• ");
    reveal_strlit("◦ ");
    reveal_strlit("▪ ");
    assert("• "@[0] != "◦ "@[0]);
    assert("• "@[0] != "▪ "@[0]);
    assert("◦ "@[0] != "▪ "@[0]);
}

/// A task that is done has its box ticked, and one that is not an empty one.
pub proof fn a_task_shows_whether_it_is_done(
    sheet: SheetView,
    offset: usize,
    highlighted: Seq<Seq<Seq<SpanView>>>,
    page: PageView,
    done: bool,
)
    requires
        sheet.containers.len() > 0,
        sheet.containers.last() is Item,
    ensures
        ({
            let after = sheet.after(
                MarkdownEventView::TaskListMarker(done),
                offset,
                highlighted,
                page,
            );
            &&& after.containers.len() == sheet.containers.len()
            &&& after.containers.last() is Item
            &&& after.containers.last()->marker == if done {
                "\u{2611} "@
            } else {
                "\u{2610} "@
            }
        }),
{
}

/// A row begins with the bar of every quote it is in and with the marker of its item, the
/// latter once: a row further down has as many blanks there.
pub proof fn a_row_stands_behind_its_marks(
    sheet: SheetView,
    spans: Seq<SpanView>,
    line: usize,
    page: PageView,
    style: Style,
    marker: Seq<char>,
)
    requires
        sheet.containers == seq![
            ContainerView::Quote(style),
            ContainerView::List(None),
            ContainerView::Item { marker, used: false },
        ],
    ensures
        ({
            let one = sheet.with_row(spans, Seq::empty(), line, page);
            let two = one.with_row(spans, Seq::empty(), line, page);
            let first = one.rows.last();
            let second = two.rows.last();
            let quote = SpanView { text: "▎ "@, style };
            &&& first.spans == seq![quote, SpanView { text: marker, style: page.styles.list }]
                + spans
            &&& second.spans == seq![quote, blanks(width_of_text(marker) as nat)] + spans
            &&& !first.blank && !second.blank
            &&& first.line == line
            &&& two.rows.len() == sheet.rows.len() + 2
        }),
{
    let one = sheet.with_row(spans, Seq::empty(), line, page);
    reveal_with_fuel(prefix, 4);
    let quote = SpanView { text: "▎ "@, style };
    assert(prefix(sheet.containers, 3, page.styles.list) =~= seq![
        quote,
        SpanView { text: marker, style: page.styles.list },
    ]);
    assert(one.containers =~= seq![
        ContainerView::Quote(style),
        ContainerView::List(None),
        ContainerView::Item { marker, used: true },
    ]);
    assert(prefix(one.containers, 3, page.styles.list) =~= seq![
        quote,
        blanks(width_of_text(marker) as nat),
    ]);
}

// ---------------------------------------------------------------------------------------
// Code blocks
// ---------------------------------------------------------------------------------------

/// What is read in a code block is its text, one part behind the other, and is drawn nowhere
/// else.
pub proof fn a_code_block_collects_its_text(
    sheet: SheetView,
    language: Seq<char>,
    code: Seq<char>,
    text: Seq<char>,
    offset: usize,
    highlighted: Seq<Seq<Seq<SpanView>>>,
    page: PageView,
)
    requires
        sheet.code == Some((language, code)),
    ensures
        sheet.after(MarkdownEventView::Text(text), offset, highlighted, page) == (SheetView {
            code: Some((language, code + text)),
            ..sheet
        }),
{
}

proof fn lemma_code_rows(
    sheet: SheetView,
    lines: Seq<Seq<SpanView>>,
    k: int,
    first: usize,
    page: PageView,
    i: int,
)
    requires
        0 <= k <= lines.len(),
        k <= i < lines.len() || i < 0,
        first + lines.len() <= usize::MAX,
        sheet.containers.len() == 0,
    ensures
        ({
            let rows = sheet.with_code_lines(lines, k, first, page).rows;
            &&& rows.len() == sheet.rows.len() + (lines.len() - k)
            &&& forall|j: int| 0 <= j < sheet.rows.len() ==> #[trigger] rows[j] == sheet.rows[j]
            &&& i >= 0 ==> {
                let row = rows[sheet.rows.len() + (i - k)];
                &&& row.spans == seq![SpanView { text: "  "@, style: Style::spec_plain() }]
                    + lines[i]
                &&& row.line == first + i
            }
        }),
    decreases lines.len() - k,
{
    if k < lines.len() {
        let line = crate::width::capped(first + k);
        let spans = seq![SpanView { text: "  "@, style: Style::spec_plain() }] + lines[k];
        let next = (SheetView { block_line: line, ..sheet }).with_row(
            spans,
            Seq::empty(),
            line,
            page,
        );
        assert(prefix(sheet.containers, 0, page.styles.list) + spans =~= spans);
        let ahead = if i > k {
            i
        } else {
            -1
        };
        lemma_code_rows(next, lines, k + 1, first, page, ahead);
        let rows = sheet.with_code_lines(lines, k, first, page).rows;
        assert(next.rows[sheet.rows.len() as int].spans == spans);
        assert forall|j: int| 0 <= j < sheet.rows.len() implies #[trigger] rows[j]
            == sheet.rows[j] by {
            assert(rows[j] == next.rows[j]);
        }
        if i == k {
            assert(rows[sheet.rows.len() as int] == next.rows[sheet.rows.len() as int]);
        }
    }
}

/// Every line of a code block has a row of its own, two columns in, in order, and is not
/// wrapped; what is above stays.
pub proof fn code_is_drawn_line_by_line(
    sheet: SheetView,
    lines: Seq<Seq<SpanView>>,
    first: usize,
    page: PageView,
    i: int,
)
    requires
        sheet.containers.len() == 0,
        0 <= i < lines.len(),
        first + lines.len() <= usize::MAX,
    ensures
        ({
            let rows = sheet.with_code_lines(lines, 0, first, page).rows;
            let row = rows[sheet.rows.len() + i];
            &&& rows.len() == sheet.rows.len() + lines.len()
            &&& row.spans == seq![SpanView { text: "  "@, style: Style::spec_plain() }] + lines[i]
            &&& row.line == first + i
            &&& forall|j: int| 0 <= j < sheet.rows.len() ==> #[trigger] rows[j] == sheet.rows[j]
        }),
{
    lemma_code_rows(sheet, lines, 0, first, page, i);
}

} // verus!
