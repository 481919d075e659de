//! The rows of a preview, and what has been read of the block being drawn.

use crate::graphics::{less, max, Span, SpanView, Style, UnderlineStyle};
use crate::markdown::events::{Alert, Level};
use crate::markdown::html::{HtmlPart, HtmlPartView};
use crate::markdown::table::{blanks, cell, column_widths, draw_rule, fit_cell, fit_columns,
    header_rule, shrunk, Align, TableRow, TableRowView};
use crate::markdown::wrap::{wrap, wrapped, Link, LinkView, Piece, PieceView, Wrapped, WrappedView};
use crate::text::{append_repeated, append_str, chars, repeated, string};
use crate::width::{capped, text_width, width_of_text};
use vstd::prelude::*;
use vstd::utf8::encode_utf8;

verus! {

// ---------------------------------------------------------------------------------------
// The page
// ---------------------------------------------------------------------------------------

/// The styles a preview draws with.
#[derive(Clone, Copy, Debug)]
pub struct Styles {
    pub text: Style,
    pub h1: Style,
    pub h2: Style,
    pub h3: Style,
    pub h4: Style,
    pub h5: Style,
    pub h6: Style,
    pub code: Style,
    pub rule: Style,
    pub quote: Style,
    pub list: Style,
    pub link: Style,
    pub dim: Style,
    /// What a note, a tip, an important note, a warning and a caution wear: the theme's
    /// `info`, `hint`, `special`, `warning` and `error`.
    pub note: Style,
    pub tip: Style,
    pub important: Style,
    pub warning: Style,
    pub caution: Style,
}

impl Styles {
    pub open spec fn spec_heading(self, level: Level) -> Style {
        match level {
            Level::H1 => self.h1,
            Level::H2 => self.h2,
            Level::H3 => self.h3,
            Level::H4 => self.h4,
            Level::H5 => self.h5,
            Level::H6 => self.h6,
        }
    }

    pub open spec fn spec_alert(self, kind: Alert) -> (Seq<char>, Style) {
        match kind {
            Alert::Note => ("Note"@, self.note),
            Alert::Tip => ("Tip"@, self.tip),
            Alert::Important => ("Important"@, self.important),
            Alert::Warning => ("Warning"@, self.warning),
            Alert::Caution => ("Caution"@, self.caution),
        }
    }

    /// The styles drawn with, out of the theme's: headings are bold and links underlined.
    pub open spec fn drawn_with(theme: Styles) -> Styles {
        Styles {
            h1: theme.h1.spec_bold(),
            h2: theme.h2.spec_bold(),
            h3: theme.h3.spec_bold(),
            h4: theme.h4.spec_bold(),
            h5: theme.h5.spec_bold(),
            h6: theme.h6.spec_bold(),
            link: Style { underline_style: Some(UnderlineStyle::Line), ..theme.link },
            ..theme
        }
    }

    pub fn new(theme: Styles) -> (r: Styles)
        ensures
            r == Styles::drawn_with(theme),
    {
        Styles {
            h1: theme.h1.bold(),
            h2: theme.h2.bold(),
            h3: theme.h3.bold(),
            h4: theme.h4.bold(),
            h5: theme.h5.bold(),
            h6: theme.h6.bold(),
            link: Style { underline_style: Some(UnderlineStyle::Line), ..theme.link },
            ..theme
        }
    }

    pub fn heading(&self, level: Level) -> (r: Style)
        ensures
            r == self.spec_heading(level),
    {
        match level {
            Level::H1 => self.h1,
            Level::H2 => self.h2,
            Level::H3 => self.h3,
            Level::H4 => self.h4,
            Level::H5 => self.h5,
            Level::H6 => self.h6,
        }
    }

    /// A GitHub alert (`> [!NOTE]`) wears the colour of the diagnostic it is closest to.
    pub fn alert(&self, kind: Alert) -> (r: (&'static str, Style))
        ensures
            (r.0@, r.1) == self.spec_alert(kind),
    {
        match kind {
            Alert::Note => ("Note", self.note),
            Alert::Tip => ("Tip", self.tip),
            Alert::Important => ("Important", self.important),
            Alert::Warning => ("Warning", self.warning),
            Alert::Caution => ("Caution", self.caution),
        }
    }
}

/// What a file is drawn on: the columns there are, the styles, and the byte each line of
/// the file starts at.
pub struct Page {
    pub width: usize,
    pub styles: Styles,
    pub starts: Vec<usize>,
}

pub struct PageView {
    pub width: usize,
    pub styles: Styles,
    pub starts: Seq<usize>,
}

impl View for Page {
    type V = PageView;

    open spec fn view(&self) -> PageView {
        PageView { width: self.width, styles: self.styles, starts: self.starts@ }
    }
}

/// The byte each line starts at, of the first `n` bytes: the first line at the first byte,
/// each other behind a line feed.
pub open spec fn line_starts(bytes: Seq<u8>, n: nat) -> Seq<usize>
    decreases n,
{
    if n == 0 {
        seq![0usize]
    } else if bytes[n - 1] == 10 {
        line_starts(bytes, (n - 1) as nat).push(n as usize)
    } else {
        line_starts(bytes, (n - 1) as nat)
    }
}

/// How many lines start at or before a byte.
pub open spec fn starts_by(starts: Seq<usize>, offset: usize) -> nat
    decreases starts.len(),
{
    if starts.len() == 0 {
        0
    } else {
        starts_by(starts.drop_last(), offset) + (if starts.last() <= offset {
            1nat
        } else {
            0
        })
    }
}

impl PageView {
    /// The line a byte is on.
    pub open spec fn line_of(self, offset: usize) -> usize {
        less(starts_by(self.starts, offset) as int, 1) as usize
    }
}

proof fn lemma_starts_sorted(bytes: Seq<u8>, n: nat)
    requires
        n <= bytes.len() <= usize::MAX,
    ensures
        line_starts(bytes, n).len() > 0,
        forall|i: int|
            0 <= i < line_starts(bytes, n).len() ==> #[trigger] line_starts(bytes, n)[i] <= n,
        forall|i: int, j: int|
            0 <= i < j < line_starts(bytes, n).len() ==> #[trigger] line_starts(bytes, n)[i]
                < #[trigger] line_starts(bytes, n)[j],
    decreases n,
{
    if n > 0 {
        lemma_starts_sorted(bytes, (n - 1) as nat);
    }
}

proof fn lemma_starts_by(starts: Seq<usize>, offset: usize, n: int)
    requires
        0 <= n <= starts.len(),
        forall|i: int| 0 <= i < n ==> #[trigger] starts[i] <= offset,
        forall|i: int| n <= i < starts.len() ==> #[trigger] starts[i] > offset,
    ensures
        starts_by(starts, offset) == n,
    decreases starts.len(),
{
    if starts.len() > 0 {
        let last = starts.len() - 1;
        assert(starts[last] == starts.last());
        lemma_starts_by(
            starts.drop_last(),
            offset,
            if n <= last {
                n
            } else {
                last
            },
        );
    }
}

/// The line a byte is on is the number of line feeds before it.
pub proof fn lines_are_counted_by_line_feeds(bytes: Seq<u8>, offset: usize)
    requires
        offset <= bytes.len() <= usize::MAX,
    ensures
        starts_by(line_starts(bytes, bytes.len()), offset) == 1 + line_feeds(bytes, offset as nat),
{
    lemma_starts_cut(bytes, bytes.len(), offset);
}

/// The line feeds among the first `n` bytes.
pub open spec fn line_feeds(bytes: Seq<u8>, n: nat) -> nat
    decreases n,
{
    if n == 0 {
        0
    } else {
        line_feeds(bytes, (n - 1) as nat) + (if bytes[n - 1] == 10 {
            1nat
        } else {
            0
        })
    }
}

proof fn lemma_starts_cut(bytes: Seq<u8>, n: nat, offset: usize)
    requires
        n <= bytes.len() <= usize::MAX,
    ensures
        starts_by(line_starts(bytes, n), offset) == 1 + line_feeds(
            bytes,
            if n <= offset {
                n
            } else {
                offset as nat
            },
        ),
    decreases n,
{
    let starts = line_starts(bytes, n);
    if n == 0 {
        assert(starts.drop_last() =~= Seq::empty());
        assert(starts.last() == 0);
        assert(starts_by(starts.drop_last(), offset) == 0);
    } else {
        lemma_starts_cut(bytes, (n - 1) as nat, offset);
        if bytes[n - 1] == 10 {
            assert(starts.drop_last() =~= line_starts(bytes, (n - 1) as nat));
        }
    }
}

impl Page {
    pub open spec fn wf(self) -> bool {
        &&& 1 <= self.width <= u16::MAX
        &&& forall|i: int, j: int|
            0 <= i < j < self.starts@.len() ==> #[trigger] self.starts@[i]
                < #[trigger] self.starts@[j]
    }

    /// The page a file is drawn on, `width` columns wide but at least one.
    pub fn new(text: &str, width: u16, styles: Styles) -> (r: Page)
        ensures
            r.wf(),
            r.width == max(width as int, 1),
            r.styles == styles,
            r.starts@ == line_starts(encode_utf8(text@), encode_utf8(text@).len()),
    {
        let bytes: &[u8] = text.as_bytes();
        let mut starts: Vec<usize> = vec![0];
        let mut n: usize = 0;
        proof {
            assert(starts@ =~= line_starts(bytes@, 0));
        }
        while n < bytes.len()
            invariant
                n <= bytes.len(),
                starts@ == line_starts(bytes@, n as nat),
            decreases bytes@.len() - n,
        {
            if bytes[n] == 10 {
                starts.push(n + 1);
            }
            n = n + 1;
        }
        proof {
            assert(bytes.len() == bytes@.len());
            lemma_starts_sorted(bytes@, bytes@.len());
        }
        let width: usize = if width == 0 {
            1
        } else {
            width as usize
        };
        Page { width, styles, starts }
    }

    pub fn line_of(&self, offset: usize) -> (r: usize)
        requires
            self.wf(),
        ensures
            r == self@.line_of(offset),
            r < usize::MAX,
    {
        let mut low: usize = 0;
        let mut high: usize = self.starts.len();
        while low < high
            invariant
                self.wf(),
                low <= high <= self.starts@.len(),
                forall|i: int| 0 <= i < low ==> #[trigger] self.starts@[i] <= offset,
                forall|i: int| high <= i < self.starts@.len() ==> #[trigger] self.starts@[i] > offset,
            decreases high - low,
        {
            let middle: usize = low + (high - low) / 2;
            if self.starts[middle] <= offset {
                low = middle + 1;
            } else {
                high = middle;
            }
        }
        proof {
            lemma_starts_by(self.starts@, offset, low as int);
        }
        low.saturating_sub(1)
    }
}

// ---------------------------------------------------------------------------------------
// The sheet
// ---------------------------------------------------------------------------------------

/// One row of the panel.
#[derive(Debug)]
pub struct Row {
    pub spans: Vec<Span>,
    /// The line of the file this row starts on, 0-indexed.
    pub line: usize,
    pub blank: bool,
    /// The links on the row, by the columns they cover.
    pub links: Vec<Link>,
}

#[verifier::ext_equal]
pub struct RowView {
    pub spans: Seq<SpanView>,
    pub line: usize,
    pub blank: bool,
    pub links: Seq<LinkView>,
}

impl DeepView for Row {
    type V = RowView;

    open spec fn deep_view(&self) -> RowView {
        RowView {
            spans: self.spans.deep_view(),
            line: self.line,
            blank: self.blank,
            links: self.links.deep_view(),
        }
    }
}

/// What wraps the text being drawn, outermost first. Each gives every row a prefix.
#[derive(Debug)]
pub enum Container {
    Quote(Style),
    List(Option<u64>),
    /// A list item: its marker goes on its first row, spaces as wide on the rest.
    Item { marker: String, used: bool },
}

#[verifier::ext_equal]
pub enum ContainerView {
    Quote(Style),
    List(Option<u64>),
    Item { marker: Seq<char>, used: bool },
}

impl DeepView for Container {
    type V = ContainerView;

    open spec fn deep_view(&self) -> ContainerView {
        match self {
            Container::Quote(style) => ContainerView::Quote(*style),
            Container::List(number) => ContainerView::List(*number),
            Container::Item { marker, used } => ContainerView::Item { marker: marker@, used: *used },
        }
    }
}

pub struct Table {
    pub aligns: Vec<Align>,
    /// Each row's cells, and the line it starts on. The first is the header.
    pub rows: Vec<TableRow>,
    pub cells: Vec<Vec<Piece>>,
}

#[verifier::ext_equal]
pub struct TableView {
    pub aligns: Seq<Align>,
    pub rows: Seq<TableRowView>,
    pub cells: Seq<Seq<PieceView>>,
}

impl DeepView for Table {
    type V = TableView;

    open spec fn deep_view(&self) -> TableView {
        TableView {
            aligns: self.aligns@,
            rows: self.rows.deep_view(),
            cells: self.cells.deep_view(),
        }
    }
}

pub struct Sheet {
    pub rows: Vec<Row>,
    pub containers: Vec<Container>,
    pub pieces: Vec<Piece>,
    /// The inline styles open around the text, innermost last.
    pub inline: Vec<Style>,
    /// The link the text being read is inside, if any.
    pub link: Option<String>,
    /// The line the block being drawn starts on.
    pub block_line: usize,
    /// A code block being collected: its language and text.
    pub code: Option<(String, String)>,
    /// How many code blocks have been drawn.
    pub blocks: usize,
    /// An HTML block being collected.
    pub html: Option<String>,
    pub table: Option<Table>,
}

#[verifier::ext_equal]
pub struct SheetView {
    pub rows: Seq<RowView>,
    pub containers: Seq<ContainerView>,
    pub pieces: Seq<PieceView>,
    pub inline: Seq<Style>,
    pub link: Option<Seq<char>>,
    pub block_line: usize,
    pub code: Option<(Seq<char>, Seq<char>)>,
    pub blocks: usize,
    pub html: Option<Seq<char>>,
    pub table: Option<TableView>,
}

impl DeepView for Sheet {
    type V = SheetView;

    open spec fn deep_view(&self) -> SheetView {
        SheetView {
            rows: self.rows.deep_view(),
            containers: self.containers.deep_view(),
            pieces: self.pieces.deep_view(),
            inline: self.inline@,
            link: self.link.deep_view(),
            block_line: self.block_line,
            code: self.code.deep_view(),
            blocks: self.blocks,
            html: self.html.deep_view(),
            table: self.table.deep_view(),
        }
    }
}

/// The first `n` inline styles, one over the other, over `base`.
pub open spec fn layered(inline: Seq<Style>, n: nat, base: Style) -> Style
    decreases n,
{
    if n == 0 {
        base
    } else {
        layered(inline, (n - 1) as nat, base).spec_patch(inline[n - 1])
    }
}

/// The columns the prefixes of the first `n` containers take.
pub open spec fn prefix_columns(containers: Seq<ContainerView>, n: nat) -> nat
    decreases n,
{
    if n == 0 {
        0
    } else {
        prefix_columns(containers, (n - 1) as nat) + match containers[n - 1] {
            ContainerView::Quote(_) => 2nat,
            ContainerView::List(_) => 0,
            ContainerView::Item { marker, .. } => width_of_text(marker) as nat,
        }
    }
}

/// A quote's bar.
pub open spec fn bar(style: Style) -> SpanView {
    SpanView { text: "▎ "@, style }
}

/// What goes in front of a row for the first `n` containers: a bar per quote, and per list
/// item its marker on the item's first row and as many spaces on the rest.
pub open spec fn prefix(containers: Seq<ContainerView>, n: nat, list: Style) -> Seq<SpanView>
    decreases n,
{
    if n == 0 {
        Seq::empty()
    } else {
        let before = prefix(containers, (n - 1) as nat, list);
        match containers[n - 1] {
            ContainerView::Quote(style) => before.push(bar(style)),
            ContainerView::List(_) => before,
            ContainerView::Item { marker, used } => before.push(
                if used {
                    blanks(width_of_text(marker) as nat)
                } else {
                    SpanView { text: marker, style: list }
                },
            ),
        }
    }
}

/// The bars of the first `n` containers.
pub open spec fn bars(containers: Seq<ContainerView>, n: nat) -> Seq<SpanView>
    decreases n,
{
    if n == 0 {
        Seq::empty()
    } else {
        let before = bars(containers, (n - 1) as nat);
        match containers[n - 1] {
            ContainerView::Quote(style) => before.push(bar(style)),
            _ => before,
        }
    }
}

/// A container once its marker, if it has one, has been drawn.
pub open spec fn drawn(container: ContainerView) -> ContainerView {
    match container {
        ContainerView::Item { marker, .. } => ContainerView::Item { marker, used: true },
        other => other,
    }
}

pub open spec fn all_drawn(containers: Seq<ContainerView>) -> Seq<ContainerView> {
    containers.map_values(|container: ContainerView| drawn(container))
}

/// The columns of the first `n` spans together.
pub open spec fn spans_columns(spans: Seq<SpanView>, n: nat) -> nat
    decreases n,
{
    if n == 0 {
        0
    } else {
        spans_columns(spans, (n - 1) as nat) + width_of_text(spans[n - 1].text) as nat
    }
}

pub open spec fn shifted(link: LinkView, shift: usize) -> LinkView {
    LinkView { from: capped(link.from + shift), to: capped(link.to + shift), target: link.target }
}

/// The text an image is shown as.
pub open spec fn image_words(alt: Seq<char>) -> Seq<char> {
    if alt.len() == 0 {
        "[image]"@
    } else {
        "[image: "@ + alt + "]"@
    }
}

/// The spans of the first `n` cells of a table's row, a border between two cells.
pub open spec fn row_spans(
    cells: Seq<Seq<PieceView>>,
    widths: Seq<nat>,
    aligns: Seq<Align>,
    header: bool,
    border: Style,
    n: nat,
) -> Seq<SpanView>
    decreases n,
{
    if n == 0 {
        Seq::empty()
    } else {
        let before = row_spans(cells, widths, aligns, header, border, (n - 1) as nat);
        let at = n - 1;
        (if at > 0 {
            before.push(SpanView { text: " │ "@, style: border })
        } else {
            before
        }) + cell(
            if at < cells.len() {
                cells[at]
            } else {
                Seq::empty()
            },
            widths[at],
            if at < aligns.len() {
                aligns[at]
            } else {
                Align::Unset
            },
            header,
        )
    }
}

impl SheetView {
    /// Nothing drawn yet.
    pub open spec fn new() -> SheetView {
        SheetView {
            rows: Seq::empty(),
            containers: Seq::empty(),
            pieces: Seq::empty(),
            inline: Seq::empty(),
            link: None,
            block_line: 0,
            code: None,
            blocks: 0,
            html: None,
            table: None,
        }
    }

    /// The style text is drawn in.
    pub open spec fn style(self, page: PageView) -> Style {
        layered(self.inline, self.inline.len(), page.styles.text)
    }

    pub open spec fn with_text(self, text: Seq<char>, style: Style, line: usize) -> SheetView {
        SheetView {
            pieces: self.pieces.push(PieceView { text, style, line, link: self.link }),
            ..self
        }
    }

    pub open spec fn with_image(self, alt: Seq<char>, line: usize, page: PageView) -> SheetView {
        self.with_text(image_words(alt), page.styles.dim, line)
    }

    /// The columns left for text once the containers' prefixes are drawn.
    pub open spec fn room(self, page: PageView) -> nat {
        max(
            less(page.width as int, prefix_columns(self.containers, self.containers.len()) as int),
            1,
        ) as nat
    }

    /// One more row, with its prefix in front, which moves the links along.
    pub open spec fn with_row(
        self,
        spans: Seq<SpanView>,
        links: Seq<LinkView>,
        line: usize,
        page: PageView,
    ) -> SheetView {
        let before = prefix(self.containers, self.containers.len(), page.styles.list);
        let shift = capped(spans_columns(before, before.len()) as int);
        SheetView {
            rows: self.rows.push(
                RowView {
                    spans: before + spans,
                    line,
                    blank: false,
                    links: links.map_values(|link: LinkView| shifted(link, shift)),
                },
            ),
            containers: all_drawn(self.containers),
            ..self
        }
    }

    /// An empty row between blocks: one at most, never the first, and inside a quote it
    /// keeps the quote's bar.
    pub open spec fn with_blank(self) -> SheetView {
        if self.rows.len() == 0 || self.rows.last().blank {
            self
        } else {
            SheetView {
                rows: self.rows.push(
                    RowView {
                        spans: bars(self.containers, self.containers.len()),
                        line: self.rows.last().line,
                        blank: true,
                        links: Seq::empty(),
                    },
                ),
                ..self
            }
        }
    }

    /// The wrapped rows from `k` on.
    pub open spec fn with_wrapped(self, rows: Seq<WrappedView>, k: int, page: PageView) -> SheetView
        decreases rows.len() - k,
    {
        if k >= rows.len() {
            self
        } else {
            self.with_row(rows[k].spans, rows[k].links, rows[k].line, page).with_wrapped(
                rows,
                k + 1,
                page,
            )
        }
    }

    /// The text collected so far drawn, wrapped to the room the containers leave.
    pub open spec fn flushed(self, page: PageView) -> SheetView {
        if self.pieces.len() == 0 {
            self
        } else {
            (SheetView { pieces: Seq::empty(), ..self }).with_wrapped(
                wrapped(self.pieces, self.room(page), page.styles.text),
                0,
                page,
            )
        }
    }

    /// The quote closed: its bar stops at its last line of text.
    pub open spec fn with_quote_closed(self) -> SheetView {
        SheetView {
            rows: if self.rows.len() > 0 && self.rows.last().blank {
                self.rows.drop_last()
            } else {
                self.rows
            },
            containers: if self.containers.len() > 0 {
                self.containers.drop_last()
            } else {
                self.containers
            },
            ..self
        }
    }

    /// The rows of a table from `k` on, with a rule under the first.
    pub open spec fn with_table_rows(
        self,
        table: TableView,
        widths: Seq<nat>,
        k: int,
        page: PageView,
    ) -> SheetView
        decreases table.rows.len() - k,
    {
        if k >= table.rows.len() {
            self
        } else {
            let (cells, line) = table.rows[k];
            let border = page.styles.rule;
            let row = self.with_row(
                row_spans(cells, widths, table.aligns, k == 0, border, widths.len()),
                Seq::empty(),
                line,
                page,
            );
            (if k == 0 {
                row.with_row(
                    seq![SpanView { text: header_rule(widths), style: border }],
                    Seq::empty(),
                    line,
                    page,
                )
            } else {
                row
            }).with_table_rows(table, widths, k + 1, page)
        }
    }

    /// A table drawn, its columns as wide as the room lets them be.
    pub open spec fn with_table(self, table: TableView, page: PageView) -> SheetView {
        let measured = column_widths(table.rows);
        if measured.len() == 0 {
            self
        } else {
            self.with_table_rows(
                table,
                shrunk(measured, (3 * (measured.len() - 1)) as nat, self.room(page)),
                0,
                page,
            )
        }
    }

    /// A line across the room there is.
    pub open spec fn with_stroke(self, stroke: Seq<char>, style: Style, page: PageView)
        -> SheetView {
        self.with_row(
            seq![SpanView { text: repeated(stroke, self.room(page)), style }],
            Seq::empty(),
            self.block_line,
            page,
        )
    }

    /// The lines of a code block from `k` on, indented, `first` the line of the first.
    pub open spec fn with_code_lines(
        self,
        lines: Seq<Seq<SpanView>>,
        k: int,
        first: usize,
        page: PageView,
    ) -> SheetView
        decreases lines.len() - k,
    {
        if k >= lines.len() {
            self
        } else {
            let line = capped(first + k);
            (SheetView { block_line: line, ..self }).with_row(
                seq![SpanView { text: "  "@, style: Style::spec_plain() }] + lines[k],
                Seq::empty(),
                line,
                page,
            ).with_code_lines(lines, k + 1, first, page)
        }
    }

    /// What HTML inside a paragraph shows, from part `k` on. The text between inline tags
    /// comes as text; of the tags, only a break and an image say something.
    pub open spec fn with_inline_html(
        self,
        parts: Seq<HtmlPartView>,
        k: int,
        line: usize,
        page: PageView,
    ) -> SheetView
        decreases parts.len() - k,
    {
        if k >= parts.len() {
            self
        } else {
            (match parts[k] {
                HtmlPartView::Break => self.flushed(page),
                HtmlPartView::Image(alt) => self.with_image(alt, line, page),
                HtmlPartView::Text(_) => self,
            }).with_inline_html(parts, k + 1, line, page)
        }
    }

    /// What a block of HTML shows, from part `k` on: its text and its images, no tags.
    pub open spec fn with_html(
        self,
        parts: Seq<HtmlPartView>,
        k: int,
        line: usize,
        page: PageView,
    ) -> SheetView
        decreases parts.len() - k,
    {
        if k >= parts.len() {
            self
        } else {
            (match parts[k] {
                HtmlPartView::Text(text) => self.with_text(text, page.styles.text, line),
                HtmlPartView::Image(alt) => self.with_image(alt, line, page),
                HtmlPartView::Break => self.flushed(page),
            }).with_html(parts, k + 1, line, page)
        }
    }
}

/// A copy of a span.
pub fn copy_span(span: &Span) -> (r: Span)
    ensures
        r.deep_view() == span.deep_view(),
{
    Span::styled(span.text.clone(), span.style)
}

/// Moves the spans of `more` to the end of `spans`.
fn extend_spans(spans: &mut Vec<Span>, mut more: Vec<Span>)
    ensures
        final(spans).deep_view() == old(spans).deep_view() + more.deep_view(),
{
    let ghost before = *spans;
    let ghost added = more;
    spans.append(&mut more);
    proof {
        assert(spans.deep_view() =~= before.deep_view() + added.deep_view());
    }
}

fn repeat_text(part: &str, n: usize) -> (r: String)
    ensures
        r@ == repeated(part@, n as nat),
{
    let part: Vec<char> = chars(part);
    let mut text: Vec<char> = Vec::new();
    append_repeated(&mut text, part.as_slice(), n);
    proof {
        assert(text@ =~= repeated(part@, n as nat));
    }
    string(text.as_slice())
}

fn one_span(text: String, style: Style) -> (r: Vec<Span>)
    ensures
        r.deep_view() == seq![SpanView { text: text@, style }],
{
    let mut spans: Vec<Span> = Vec::new();
    spans.push(Span::styled(text, style));
    proof {
        assert(spans.deep_view() =~= seq![SpanView { text: text@, style }]);
    }
    spans
}

impl Sheet {
    pub fn new() -> (r: Sheet)
        ensures
            r.deep_view() == SheetView::new(),
    {
        let r: Sheet = Sheet {
            rows: Vec::new(),
            containers: Vec::new(),
            pieces: Vec::new(),
            inline: Vec::new(),
            link: None,
            block_line: 0,
            code: None,
            blocks: 0,
            html: None,
            table: None,
        };
        proof {
            assert(r.deep_view() =~= SheetView::new());
        }
        r
    }

    pub fn style(&self, page: &Page) -> (r: Style)
        ensures
            r == self.deep_view().style(page@),
    {
        let mut style: Style = page.styles.text;
        let mut n: usize = 0;
        while n < self.inline.len()
            invariant
                n <= self.inline@.len(),
                style == layered(self.inline@, n as nat, page.styles.text),
            decreases self.inline@.len() - n,
        {
            style = style.patch(self.inline[n]);
            n = n + 1;
        }
        style
    }

    fn copy_link(&self) -> (r: Option<String>)
        ensures
            r.deep_view() == self.link.deep_view(),
    {
        match &self.link {
            Some(target) => Some(target.clone()),
            None => None,
        }
    }

    pub fn push_text(&mut self, text: String, style: Style, line: usize)
        ensures
            final(self).deep_view() == old(self).deep_view().with_text(text@, style, line),
    {
        let ghost before = self.deep_view();
        let link: Option<String> = self.copy_link();
        let piece: Piece = Piece { text, style, line, link };
        self.pieces.push(piece);
        proof {
            assert(self.pieces.deep_view() =~= before.pieces.push(piece.deep_view()));
            assert(self.deep_view() =~= before.with_text(text@, style, line));
        }
    }

    pub fn push_image(&mut self, alt: &str, line: usize, page: &Page)
        ensures
            final(self).deep_view() == old(self).deep_view().with_image(alt@, line, page@),
    {
        let letters: Vec<char> = chars(alt);
        let mut words: Vec<char> = Vec::new();
        if letters.len() == 0 {
            append_str(&mut words, "[image]");
        } else {
            append_str(&mut words, "[image: ");
            append_str(&mut words, alt);
            append_str(&mut words, "]");
        }
        proof {
            assert(words@ =~= image_words(alt@));
        }
        self.push_text(string(words.as_slice()), page.styles.dim, line);
    }

    /// The columns left for text once the containers' prefixes are drawn.
    pub fn room(&self, page: &Page) -> (r: usize)
        requires
            page.wf(),
        ensures
            r == self.deep_view().room(page@),
            1 <= r <= u16::MAX,
    {
        let ghost all = self.containers.deep_view();
        let mut taken: usize = 0;
        let mut n: usize = 0;
        while n < self.containers.len()
            invariant
                n <= self.containers@.len(),
                all == self.containers.deep_view(),
                taken == capped(prefix_columns(all, n as nat) as int),
            decreases self.containers@.len() - n,
        {
            proof {
                assert(all[n as int] == self.containers@[n as int].deep_view());
            }
            let more: usize = match &self.containers[n] {
                Container::Quote(_) => 2,
                Container::List(_) => 0,
                Container::Item { marker, .. } => text_width(marker.as_str()),
            };
            taken = taken.saturating_add(more);
            n = n + 1;
        }
        let left: usize = page.width.saturating_sub(taken);
        if left == 0 {
            1
        } else {
            left
        }
    }

    /// What goes in front of a row: a bar per quote, and per list item its marker on the
    /// item's first row and as many spaces on the rest.
    fn prefix(&mut self, page: &Page) -> (r: Vec<Span>)
        ensures
            r.deep_view() == prefix(
                old(self).deep_view().containers,
                old(self).deep_view().containers.len(),
                page.styles.list,
            ),
            final(self).deep_view() == (SheetView {
                containers: all_drawn(old(self).deep_view().containers),
                ..old(self).deep_view()
            }),
    {
        let ghost was = self.deep_view();
        let ghost all = self.containers.deep_view();
        let mut spans: Vec<Span> = Vec::new();
        let mut rest: Vec<Container> = Vec::new();
        core::mem::swap(&mut rest, &mut self.containers);
        let mut done: Vec<Container> = Vec::new();
        proof {
            assert(spans.deep_view() =~= prefix(all, 0, page.styles.list));
            assert(done.deep_view() =~= all_drawn(all).take(0));
        }
        for container in it: rest
            invariant
                it.seq() == rest@,
                all == rest.deep_view(),
                done@.len() == it.index(),
                spans.deep_view() == prefix(all, it.index() as nat, page.styles.list),
                done.deep_view() == all_drawn(all).take(it.index() as int),
        {
            let ghost n = it.index() as int;
            let ghost were = spans.deep_view();
            proof {
                assert(all[n] == rest@[n].deep_view());
                assert(container == rest@[n]);
            }
            let next: Container = match container {
                Container::Quote(style) => {
                    spans.push(Span::styled("▎ ".to_string(), style));
                    proof {
                        assert(spans.deep_view() =~= were.push(bar(style)));
                    }
                    Container::Quote(style)
                },
                Container::List(number) => Container::List(number),
                Container::Item { marker, used } => {
                    if used {
                        let blank: Span = Span::styled(
                            repeat_text(" ", text_width(marker.as_str())),
                            Style::plain(),
                        );
                        spans.push(blank);
                        proof {
                            assert(spans.deep_view() =~= were.push(blank.deep_view()));
                        }
                    } else {
                        let span: Span = Span::styled(marker.clone(), page.styles.list);
                        spans.push(span);
                        proof {
                            assert(spans.deep_view() =~= were.push(span.deep_view()));
                        }
                    }
                    Container::Item { marker, used: true }
                },
            };
            done.push(next);
            proof {
                assert(next.deep_view() == drawn(all[n]));
                assert(done.deep_view() =~= all_drawn(all).take(n + 1));
            }
        }
        proof {
            assert(all_drawn(all).take(all.len() as int) =~= all_drawn(all));
        }
        self.containers = done;
        proof {
            assert(self.deep_view() =~= (SheetView { containers: all_drawn(all), ..was }));
        }
        spans
    }
}

impl Sheet {
    /// A row with links on it, their columns counted from the text's start: the prefix
    /// drawn in front moves them along.
    pub fn push_row(&mut self, spans: Vec<Span>, links: Vec<Link>, line: usize, page: &Page)
        ensures
            final(self).deep_view() == old(self).deep_view().with_row(
                spans.deep_view(),
                links.deep_view(),
                line,
                page@,
            ),
    {
        let ghost was = self.deep_view();
        let ghost drawn_spans = spans.deep_view();
        let mut row: Vec<Span> = self.prefix(page);
        let ghost before = row.deep_view();
        let mut shift: usize = 0;
        let mut n: usize = 0;
        while n < row.len()
            invariant
                n <= row@.len(),
                before == row.deep_view(),
                shift == capped(spans_columns(before, n as nat) as int),
            decreases row@.len() - n,
        {
            proof {
                assert(before[n as int].text == row@[n as int].text@);
            }
            shift = shift.saturating_add(text_width(row[n].text.as_str()));
            n = n + 1;
        }
        extend_spans(&mut row, spans);
        let moved: Vec<Link> = move_links(&links, shift);
        let whole: Row = Row { spans: row, line, blank: false, links: moved };
        let ghost rows = self.rows.deep_view();
        self.rows.push(whole);
        proof {
            assert(self.rows.deep_view() =~= rows.push(whole.deep_view()));
            assert(self.deep_view() =~= was.with_row(drawn_spans, links.deep_view(), line, page@));
        }
    }

    /// An empty row between blocks: one at most, never the first, and inside a quote it
    /// keeps the quote's bar.
    pub fn push_blank(&mut self)
        ensures
            final(self).deep_view() == old(self).deep_view().with_blank(),
    {
        let ghost was = self.deep_view();
        if self.rows.len() == 0 {
            return ;
        }
        let last: &Row = &self.rows[self.rows.len() - 1];
        proof {
            assert(was.rows.last() == last.deep_view());
        }
        if last.blank {
            return ;
        }
        let line: usize = last.line;
        let ghost all = self.containers.deep_view();
        let mut spans: Vec<Span> = Vec::new();
        let mut n: usize = 0;
        proof {
            assert(spans.deep_view() =~= bars(all, 0));
        }
        while n < self.containers.len()
            invariant
                n <= self.containers@.len(),
                all == self.containers.deep_view(),
                spans.deep_view() == bars(all, n as nat),
            decreases self.containers@.len() - n,
        {
            let ghost were = spans.deep_view();
            proof {
                assert(all[n as int] == self.containers@[n as int].deep_view());
            }
            match &self.containers[n] {
                Container::Quote(style) => {
                    spans.push(Span::styled("▎ ".to_string(), *style));
                    proof {
                        assert(spans.deep_view() =~= were.push(bar(*style)));
                    }
                },
                _ => {},
            }
            n = n + 1;
        }
        let row: Row = Row { spans, line, blank: true, links: Vec::new() };
        proof {
            assert(row.links.deep_view() =~= Seq::empty());
        }
        self.rows.push(row);
        proof {
            assert(self.rows.deep_view() =~= was.rows.push(row.deep_view()));
            assert(self.deep_view() =~= was.with_blank());
        }
    }

    /// Draws the text collected so far, wrapped to the room the containers leave.
    pub fn flush(&mut self, page: &Page)
        requires
            page.wf(),
        ensures
            final(self).deep_view() == old(self).deep_view().flushed(page@),
    {
        let ghost was = self.deep_view();
        if self.pieces.len() == 0 {
            return ;
        }
        let room: usize = self.room(page);
        let mut pieces: Vec<Piece> = Vec::new();
        core::mem::swap(&mut pieces, &mut self.pieces);
        let rows: Vec<Wrapped> = wrap(&pieces, room, page.styles.text);
        let ghost all = rows.deep_view();
        proof {
            assert(pieces.deep_view() == was.pieces);
            assert(self.deep_view() =~= (SheetView { pieces: Seq::empty(), ..was }));
        }
        let ghost start = self.deep_view();
        for row in it: rows
            invariant
                it.seq() == rows@,
                all == rows.deep_view(),
                start.with_wrapped(all, 0, page@) == self.deep_view().with_wrapped(
                    all,
                    it.index() as int,
                    page@,
                ),
        {
            proof {
                assert(all[it.index() as int] == row.deep_view());
            }
            self.push_row(row.spans, row.links, row.line, page);
        }
    }

    /// The quote's bar stops at its last line of text.
    pub fn close_quote(&mut self)
        ensures
            final(self).deep_view() == old(self).deep_view().with_quote_closed(),
    {
        let ghost was = self.deep_view();
        if self.rows.len() > 0 {
            proof {
                assert(was.rows.last() == self.rows@.last().deep_view());
            }
            if self.rows[self.rows.len() - 1].blank {
                let _ = self.rows.pop();
                proof {
                    assert(self.rows.deep_view() =~= was.rows.drop_last());
                }
            }
        }
        self.pop_container();
        proof {
            assert(self.deep_view() =~= was.with_quote_closed());
        }
    }

    /// The innermost container closed, where there is one.
    pub fn pop_container(&mut self)
        ensures
            final(self).deep_view() == (SheetView {
                containers: if old(self).deep_view().containers.len() > 0 {
                    old(self).deep_view().containers.drop_last()
                } else {
                    old(self).deep_view().containers
                },
                ..old(self).deep_view()
            }),
    {
        let ghost was = self.deep_view();
        if self.containers.len() > 0 {
            let _ = self.containers.pop();
            proof {
                assert(self.containers.deep_view() =~= was.containers.drop_last());
            }
        }
        proof {
            assert(self.deep_view() =~= (SheetView {
                containers: self.containers.deep_view(),
                ..was
            }));
        }
    }

    /// A line across the room there is.
    pub fn push_stroke(&mut self, stroke: &str, style: Style, page: &Page)
        requires
            page.wf(),
        ensures
            final(self).deep_view() == old(self).deep_view().with_stroke(stroke@, style, page@),
    {
        let rule: String = repeat_text(stroke, self.room(page));
        let line: usize = self.block_line;
        let links: Vec<Link> = Vec::new();
        proof {
            assert(links.deep_view() =~= Seq::empty());
        }
        self.push_row(one_span(rule, style), links, line, page);
    }

    /// The lines of a code block, indented.
    pub fn push_code(&mut self, lines: &Vec<Vec<Span>>, page: &Page)
        ensures
            final(self).deep_view() == old(self).deep_view().with_code_lines(
                lines.deep_view(),
                0,
                old(self).block_line,
                page@,
            ),
    {
        let ghost was = self.deep_view();
        let ghost all = lines.deep_view();
        let first: usize = self.block_line;
        let mut k: usize = 0;
        while k < lines.len()
            invariant
                k <= lines@.len(),
                all == lines.deep_view(),
                was.with_code_lines(all, 0, first, page@) == self.deep_view().with_code_lines(
                    all,
                    k as int,
                    first,
                    page@,
                ),
            decreases lines@.len() - k,
        {
            let ghost before = self.deep_view();
            let line: usize = first.saturating_add(k);
            self.block_line = line;
            proof {
                assert(self.deep_view() =~= (SheetView { block_line: line, ..before }));
                assert(all[k as int] == lines@[k as int].deep_view());
            }
            let mut spans: Vec<Span> = one_span("  ".to_string(), Style::plain());
            let copies: Vec<Span> = copy_spans(&lines[k]);
            extend_spans(&mut spans, copies);
            let links: Vec<Link> = Vec::new();
            proof {
                assert(links.deep_view() =~= Seq::empty());
            }
            self.push_row(spans, links, line, page);
            k = k + 1;
        }
    }

    /// What HTML inside a paragraph shows: its breaks and its images.
    pub fn push_inline_html(&mut self, parts: Vec<HtmlPart>, line: usize, page: &Page)
        requires
            page.wf(),
        ensures
            final(self).deep_view() == old(self).deep_view().with_inline_html(
                parts.deep_view(),
                0,
                line,
                page@,
            ),
    {
        let ghost was = self.deep_view();
        let ghost all = parts.deep_view();
        for part in it: parts
            invariant
                it.seq() == parts@,
                all == parts.deep_view(),
                page.wf(),
                was.with_inline_html(all, 0, line, page@) == self.deep_view().with_inline_html(
                    all,
                    it.index() as int,
                    line,
                    page@,
                ),
        {
            proof {
                assert(all[it.index() as int] == part.deep_view());
            }
            match part {
                HtmlPart::Break => self.flush(page),
                HtmlPart::Image(alt) => self.push_image(alt.as_str(), line, page),
                HtmlPart::Text(_) => {},
            }
        }
    }

    /// What a block of HTML shows: its text and its images, no tags.
    pub fn push_html(&mut self, parts: Vec<HtmlPart>, line: usize, page: &Page)
        requires
            page.wf(),
        ensures
            final(self).deep_view() == old(self).deep_view().with_html(
                parts.deep_view(),
                0,
                line,
                page@,
            ),
    {
        let ghost was = self.deep_view();
        let ghost all = parts.deep_view();
        for part in it: parts
            invariant
                it.seq() == parts@,
                all == parts.deep_view(),
                page.wf(),
                was.with_html(all, 0, line, page@) == self.deep_view().with_html(
                    all,
                    it.index() as int,
                    line,
                    page@,
                ),
        {
            proof {
                assert(all[it.index() as int] == part.deep_view());
            }
            match part {
                HtmlPart::Text(text) => self.push_text(text, page.styles.text, line),
                HtmlPart::Image(alt) => self.push_image(alt.as_str(), line, page),
                HtmlPart::Break => self.flush(page),
            }
        }
    }

    /// Draws a table, its columns as wide as the room lets them be.
    pub fn draw_table(&mut self, table: &Table, page: &Page)
        requires
            page.wf(),
        ensures
            final(self).deep_view() == old(self).deep_view().with_table(table.deep_view(), page@),
    {
        let ghost was = self.deep_view();
        let room: usize = self.room(page);
        let widths: Vec<usize> = fit_columns(&table.rows, room);
        if widths.len() == 0 {
            return ;
        }
        let ghost all = table.deep_view();
        let ghost sizes = widths@.map_values(|n: usize| n as nat);
        let border: Style = page.styles.rule;
        let mut k: usize = 0;
        while k < table.rows.len()
            invariant
                k <= table.rows@.len(),
                all == table.deep_view(),
                sizes == widths@.map_values(|n: usize| n as nat),
                border == page.styles.rule,
                forall|i: int| 0 <= i < widths@.len() ==> #[trigger] widths@[i] <= u16::MAX,
                was.with_table_rows(all, sizes, 0, page@) == self.deep_view().with_table_rows(
                    all,
                    sizes,
                    k as int,
                    page@,
                ),
            decreases table.rows@.len() - k,
        {
            let header: bool = k == 0;
            let line: usize = table.rows[k].1;
            let spans: Vec<Span> = draw_cells(
                &table.rows[k].0,
                &widths,
                &table.aligns,
                header,
                border,
            );
            let links: Vec<Link> = Vec::new();
            proof {
                assert(links.deep_view() =~= Seq::empty());
                assert(all.rows[k as int].0 == table.rows@[k as int].0.deep_view());
            }
            self.push_row(spans, links, line, page);
            if header {
                let links: Vec<Link> = Vec::new();
                proof {
                    assert(links.deep_view() =~= Seq::empty());
                }
                self.push_row(one_span(draw_rule(&widths), border), links, line, page);
            }
            k = k + 1;
        }
    }
}

fn move_links(links: &Vec<Link>, shift: usize) -> (r: Vec<Link>)
    ensures
        r.deep_view() == links.deep_view().map_values(|link: LinkView| shifted(link, shift)),
{
    let ghost want = links.deep_view().map_values(|link: LinkView| shifted(link, shift));
    let mut moved: Vec<Link> = Vec::new();
    let mut n: usize = 0;
    proof {
        assert(moved.deep_view() =~= want.take(0));
    }
    while n < links.len()
        invariant
            n <= links@.len(),
            moved@.len() == n,
            want == links.deep_view().map_values(|link: LinkView| shifted(link, shift)),
            moved.deep_view() == want.take(n as int),
        decreases links@.len() - n,
    {
        let link: Link = Link {
            from: links[n].from.saturating_add(shift),
            to: links[n].to.saturating_add(shift),
            target: links[n].target.clone(),
        };
        moved.push(link);
        n = n + 1;
        proof {
            assert(links.deep_view()[n - 1] == links@[n - 1].deep_view());
            assert(moved.deep_view() =~= want.take(n as int));
        }
    }
    proof {
        assert(want.take(n as int) =~= want);
    }
    moved
}

fn copy_spans(spans: &Vec<Span>) -> (r: Vec<Span>)
    ensures
        r.deep_view() == spans.deep_view(),
{
    let mut copies: Vec<Span> = Vec::new();
    let mut n: usize = 0;
    while n < spans.len()
        invariant
            n <= spans@.len(),
            copies@.len() == n,
            forall|i: int|
                0 <= i < n ==> (#[trigger] copies@[i]).deep_view() == spans@[i].deep_view(),
        decreases spans@.len() - n,
    {
        copies.push(copy_span(&spans[n]));
        n = n + 1;
    }
    proof {
        assert(copies.deep_view() =~= spans.deep_view());
    }
    copies
}

/// The spans of a table's row, a border between two cells.
fn draw_cells(
    cells: &Vec<Vec<Piece>>,
    widths: &Vec<usize>,
    aligns: &Vec<Align>,
    header: bool,
    border: Style,
) -> (r: Vec<Span>)
    requires
        forall|i: int| 0 <= i < widths@.len() ==> #[trigger] widths@[i] <= u16::MAX,
    ensures
        r.deep_view() == row_spans(
            cells.deep_view(),
            widths@.map_values(|n: usize| n as nat),
            aligns@,
            header,
            border,
            widths@.len(),
        ),
{
    let ghost sizes = widths@.map_values(|n: usize| n as nat);
    let ghost all = cells.deep_view();
    let mut spans: Vec<Span> = Vec::new();
    let nothing: Vec<Piece> = Vec::new();
    let mut n: usize = 0;
    proof {
        assert(spans.deep_view() =~= Seq::empty());
        assert(nothing.deep_view() =~= Seq::empty());
    }
    while n < widths.len()
        invariant
            n <= widths@.len(),
            sizes == widths@.map_values(|n: usize| n as nat),
            all == cells.deep_view(),
            nothing.deep_view() == Seq::<PieceView>::empty(),
            forall|i: int| 0 <= i < widths@.len() ==> #[trigger] widths@[i] <= u16::MAX,
            spans.deep_view() == row_spans(all, sizes, aligns@, header, border, n as nat),
        decreases widths@.len() - n,
    {
        let ghost before = spans.deep_view();
        if n > 0 {
            let edge: Span = Span::styled(" │ ".to_string(), border);
            spans.push(edge);
            proof {
                assert(spans.deep_view() =~= before.push(edge.deep_view()));
            }
        }
        let pieces: &Vec<Piece> = if n < cells.len() {
            &cells[n]
        } else {
            &nothing
        };
        let align: Align = if n < aligns.len() {
            aligns[n]
        } else {
            Align::Unset
        };
        proof {
            assert(n < cells@.len() ==> all[n as int] == cells@[n as int].deep_view());
        }
        let more: Vec<Span> = fit_cell(pieces, widths[n], align, header);
        extend_spans(&mut spans, more);
        n = n + 1;
    }
    spans
}

} // verus!
