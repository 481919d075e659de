//! A Markdown file drawn as rows.

use crate::graphics::{less, max, Modifiers, Span, SpanView, Style};
use crate::markdown::events::{markdown_of, read_markdown, Level, MarkdownEnd, MarkdownEvent,
    MarkdownEventView, MarkdownTag, MarkdownTagView};
use crate::markdown::html::{read_html, shown};
use crate::markdown::sheet::{line_starts, Container, ContainerView, Page, PageView, Row, RowView,
    Sheet, SheetView, Styles, Table, TableView};
use crate::markdown::wrap::Piece;
use crate::text::{append_str, chars, decimal, string, write_number};
use vstd::prelude::*;
use vstd::slice::slice_subrange;
use vstd::utf8::encode_utf8;

verus! {

pub open spec fn italic() -> Style {
    Style::spec_plain().spec_add_modifier(Modifiers { italic: true, ..Modifiers::spec_none() })
}

pub open spec fn crossed_out() -> Style {
    Style::spec_plain().spec_add_modifier(Modifiers { crossed_out: true, ..Modifiers::spec_none() })
}

/// How many lists there are among the first `n` containers.
pub open spec fn lists(containers: Seq<ContainerView>, n: nat) -> nat
    decreases n,
{
    if n == 0 {
        0
    } else {
        lists(containers, (n - 1) as nat) + (if containers[n - 1] is List {
            1nat
        } else {
            0
        })
    }
}

/// The bullet of an item `depth` lists in.
pub open spec fn bullet(depth: nat) -> Seq<char> {
    let at = less(depth as int, 1) % 3;
    if at == 0 {
        "• "@
    } else if at == 1 {
        "◦ "@
    } else {
        "▪ "@
    }
}

/// The number behind `n`, which stops at the largest there is.
pub open spec fn next_number(n: u64) -> u64 {
    if n == u64::MAX {
        n
    } else {
        (n + 1) as u64
    }
}

/// The text without the line feeds at its end.
pub open spec fn without_last_breaks(s: Seq<char>) -> Seq<char>
    decreases s.len(),
{
    if s.len() > 0 && s.last() == '\n' {
        without_last_breaks(s.drop_last())
    } else {
        s
    }
}

impl SheetView {
    pub open spec fn at_line(self, line: usize) -> SheetView {
        SheetView { block_line: line, ..self }
    }

    pub open spec fn with_inline(self, style: Style) -> SheetView {
        SheetView { inline: self.inline.push(style), ..self }
    }

    pub open spec fn without_inline(self) -> SheetView {
        SheetView {
            inline: if self.inline.len() > 0 {
                self.inline.drop_last()
            } else {
                self.inline
            },
            ..self
        }
    }

    pub open spec fn with_container(self, container: ContainerView) -> SheetView {
        SheetView { containers: self.containers.push(container), ..self }
    }

    pub open spec fn without_container(self) -> SheetView {
        SheetView {
            containers: if self.containers.len() > 0 {
                self.containers.drop_last()
            } else {
                self.containers
            },
            ..self
        }
    }

    /// One more item of the list being drawn: numbered in an ordered list, with the bullet
    /// of its depth in any other.
    pub open spec fn with_item(self) -> SheetView {
        if self.containers.len() > 0 && (self.containers.last() matches ContainerView::List(
            Some(number),
        )) {
            let number = self.containers.last()->List_0->0;
            SheetView {
                containers: self.containers.drop_last().push(
                    ContainerView::List(Some(next_number(number))),
                ).push(
                    ContainerView::Item { marker: decimal(number as nat) + ". "@, used: false },
                ),
                ..self
            }
        } else {
            self.with_container(
                ContainerView::Item {
                    marker: bullet(lists(self.containers, self.containers.len())),
                    used: false,
                },
            )
        }
    }

    /// A tag opens at byte `offset`.
    pub open spec fn started(self, tag: MarkdownTagView, offset: usize, page: PageView)
        -> SheetView {
        let line = page.line_of(offset);
        match tag {
            MarkdownTagView::Paragraph => self.at_line(line),
            MarkdownTagView::Heading(level) => self.flushed(page).at_line(line).with_inline(
                page.styles.spec_heading(level),
            ),
            MarkdownTagView::BlockQuote(kind) => {
                let open = self.flushed(page).at_line(line);
                match kind {
                    Some(kind) => {
                        let (label, style) = page.styles.spec_alert(kind);
                        open.with_container(ContainerView::Quote(style)).with_row(
                            seq![SpanView { text: label, style: style.spec_bold() }],
                            Seq::empty(),
                            line,
                            page,
                        )
                    },
                    None => open.with_container(ContainerView::Quote(page.styles.quote)),
                }
            },
            // A fenced block's first line is the fence.
            MarkdownTagView::CodeBlock(language) => SheetView {
                code: Some(
                    match language {
                        Some(name) => (name, Seq::empty()),
                        None => (Seq::empty(), Seq::empty()),
                    },
                ),
                ..self.flushed(page).at_line(
                    if language is Some {
                        (line + 1) as usize
                    } else {
                        line
                    },
                )
            },
            MarkdownTagView::HtmlBlock => SheetView {
                html: Some(Seq::empty()),
                ..self.flushed(page).at_line(line)
            },
            // The text of the item this list sits in goes on its own rows first.
            MarkdownTagView::List(start) => self.flushed(page).with_container(
                ContainerView::List(start),
            ),
            MarkdownTagView::Item => self.flushed(page).at_line(line).with_item(),
            MarkdownTagView::FootnoteDefinition(label) => self.flushed(page).at_line(
                line,
            ).with_text("["@ + label + "] "@, page.styles.link, line),
            MarkdownTagView::Table(aligns) => SheetView {
                table: Some(TableView { aligns, rows: Seq::empty(), cells: Seq::empty() }),
                ..self.flushed(page)
            },
            MarkdownTagView::TableHead | MarkdownTagView::TableRow => SheetView {
                table: match self.table {
                    Some(table) => Some(TableView { cells: Seq::empty(), ..table }),
                    None => None,
                },
                ..self.at_line(line)
            },
            MarkdownTagView::TableCell => SheetView { pieces: Seq::empty(), ..self },
            MarkdownTagView::Emphasis => self.with_inline(italic()),
            MarkdownTagView::Strong => self.with_inline(Style::spec_plain().spec_bold()),
            MarkdownTagView::Strikethrough => self.with_inline(crossed_out()),
            MarkdownTagView::Link(target) => SheetView {
                link: Some(target),
                ..self.with_inline(page.styles.link)
            },
            MarkdownTagView::Image => self.with_text(
                "[image: "@,
                page.styles.dim,
                line,
            ).with_inline(page.styles.dim),
            MarkdownTagView::Other => self,
        }
    }

    /// A tag closes. The lines of code blocks come highlighted, block by block.
    pub open spec fn ended(
        self,
        tag: MarkdownEnd,
        highlighted: Seq<Seq<Seq<SpanView>>>,
        page: PageView,
    ) -> SheetView {
        match tag {
            MarkdownEnd::Paragraph => self.flushed(page).with_blank(),
            MarkdownEnd::Heading(level) => {
                let text = self.without_inline().flushed(page);
                (match level {
                    Level::H1 => text.with_stroke("━"@, page.styles.h1, page),
                    Level::H2 => text.with_stroke("─"@, page.styles.rule, page),
                    _ => text,
                }).with_blank()
            },
            MarkdownEnd::BlockQuote => self.flushed(page).with_quote_closed().with_blank(),
            MarkdownEnd::HtmlBlock => (SheetView { html: None, ..self }).with_html(
                match self.html {
                    Some(html) => shown(html),
                    None => shown(Seq::empty()),
                },
                0,
                self.block_line,
                page,
            ).flushed(page).with_blank(),
            MarkdownEnd::CodeBlock => match self.code {
                None => self,
                Some(_) => {
                    let rest = SheetView { code: None, ..self };
                    (if self.blocks < highlighted.len() {
                        (SheetView {
                            blocks: (self.blocks + 1) as usize,
                            ..rest
                        }).with_code_lines(
                            highlighted[self.blocks as int],
                            0,
                            self.block_line,
                            page,
                        )
                    } else {
                        rest
                    }).with_blank()
                },
            },
            MarkdownEnd::List => {
                let rest = self.flushed(page).without_container();
                if lists(rest.containers, rest.containers.len()) > 0 {
                    rest
                } else {
                    rest.with_blank()
                }
            },
            MarkdownEnd::Item => self.flushed(page).without_container(),
            MarkdownEnd::FootnoteDefinition => self.flushed(page).with_blank(),
            MarkdownEnd::TableCell => SheetView {
                pieces: Seq::empty(),
                table: match self.table {
                    Some(table) => Some(TableView { cells: table.cells.push(self.pieces), ..table }),
                    None => None,
                },
                ..self
            },
            MarkdownEnd::TableHead | MarkdownEnd::TableRow => SheetView {
                table: match self.table {
                    Some(table) => Some(
                        TableView {
                            rows: table.rows.push((table.cells, self.block_line)),
                            cells: Seq::empty(),
                            ..table
                        },
                    ),
                    None => None,
                },
                ..self
            },
            MarkdownEnd::Table => (match self.table {
                Some(table) => (SheetView { table: None, ..self }).with_table(table, page),
                None => self,
            }).with_blank(),
            MarkdownEnd::Image => self.without_inline().with_text(
                "]"@,
                page.styles.dim,
                if self.pieces.len() > 0 {
                    self.pieces.last().line
                } else {
                    self.block_line
                },
            ),
            MarkdownEnd::Link => SheetView { link: None, ..self.without_inline() },
            MarkdownEnd::Emphasis | MarkdownEnd::Strong | MarkdownEnd::Strikethrough =>
                self.without_inline(),
            MarkdownEnd::Other => self,
        }
    }

    /// One event of the file, at byte `offset`.
    pub open spec fn after(
        self,
        event: MarkdownEventView,
        offset: usize,
        highlighted: Seq<Seq<Seq<SpanView>>>,
        page: PageView,
    ) -> SheetView {
        let line = page.line_of(offset);
        match event {
            MarkdownEventView::Start(tag) => self.started(tag, offset, page),
            MarkdownEventView::End(tag) => self.ended(tag, highlighted, page),
            MarkdownEventView::Text(text) => match self.code {
                Some((language, code)) => SheetView { code: Some((language, code + text)), ..self },
                None => self.with_text(text, self.style(page), line),
            },
            MarkdownEventView::Html(html) => match self.html {
                Some(block) => SheetView { html: Some(block + html), ..self },
                None => self,
            },
            MarkdownEventView::InlineHtml(html) => self.with_inline_html(
                shown(html),
                0,
                line,
                page,
            ),
            MarkdownEventView::Code(text)
            | MarkdownEventView::InlineMath(text)
            | MarkdownEventView::DisplayMath(text) => self.with_text(
                text,
                self.style(page).spec_patch(page.styles.code),
                line,
            ),
            MarkdownEventView::FootnoteReference(label) => self.with_text(
                "["@ + label + "]"@,
                page.styles.link,
                line,
            ),
            // Text reflows to the panel, so a line break in the file is a space.
            MarkdownEventView::SoftBreak => self.with_text(" "@, self.style(page), line),
            MarkdownEventView::HardBreak => self.flushed(page),
            MarkdownEventView::Rule => self.flushed(page).at_line(line).with_stroke(
                "─"@,
                page.styles.rule,
                page,
            ).with_blank(),
            MarkdownEventView::TaskListMarker(checked) => if self.containers.len() > 0 && (
            self.containers.last() matches ContainerView::Item { .. }) {
                SheetView {
                    containers: self.containers.drop_last().push(
                        ContainerView::Item {
                            marker: if checked {
                                "☑ "@
                            } else {
                                "☐ "@
                            },
                            used: self.containers.last()->used,
                        },
                    ),
                    ..self
                }
            } else {
                self
            },
        }
    }

    /// The events from `k` on.
    pub open spec fn after_all(
        self,
        events: Seq<(MarkdownEventView, usize)>,
        k: int,
        highlighted: Seq<Seq<Seq<SpanView>>>,
        page: PageView,
    ) -> SheetView
        decreases events.len() - k,
    {
        if k >= events.len() {
            self
        } else {
            self.after(events[k].0, events[k].1, highlighted, page).after_all(
                events,
                k + 1,
                highlighted,
                page,
            )
        }
    }
}

/// The rows without the blank ones at the end.
pub open spec fn without_last_blanks(rows: Seq<RowView>) -> Seq<RowView>
    decreases rows.len(),
{
    if rows.len() > 0 && rows.last().blank {
        without_last_blanks(rows.drop_last())
    } else {
        rows
    }
}

/// The rows a file is drawn as.
pub open spec fn rows_of(
    events: Seq<(MarkdownEventView, usize)>,
    highlighted: Seq<Seq<Seq<SpanView>>>,
    page: PageView,
) -> Seq<RowView> {
    without_last_blanks(
        SheetView::new().after_all(events, 0, highlighted, page).flushed(page).rows,
    )
}

fn bracketed(label: &str, after: &str) -> (r: String)
    ensures
        r@ == "["@ + label@ + after@,
{
    let mut words: Vec<char> = chars("[");
    append_str(&mut words, label);
    append_str(&mut words, after);
    string(words.as_slice())
}

fn joined(before: &str, after: &str) -> (r: String)
    ensures
        r@ == before@ + after@,
{
    let mut words: Vec<char> = chars(before);
    append_str(&mut words, after);
    string(words.as_slice())
}

impl Sheet {
    fn set_line(&mut self, line: usize)
        ensures
            final(self).deep_view() == old(self).deep_view().at_line(line),
    {
        self.block_line = line;
    }

    fn push_inline(&mut self, style: Style)
        ensures
            final(self).deep_view() == old(self).deep_view().with_inline(style),
    {
        self.inline.push(style);
    }

    fn pop_inline(&mut self)
        ensures
            final(self).deep_view() == old(self).deep_view().without_inline(),
    {
        if self.inline.len() > 0 {
            let _ = self.inline.pop();
        }
    }

    fn push_container(&mut self, container: Container)
        ensures
            final(self).deep_view() == old(self).deep_view().with_container(container.deep_view()),
    {
        let ghost was = self.deep_view();
        self.containers.push(container);
        proof {
            assert(self.containers.deep_view() =~= was.containers.push(container.deep_view()));
            assert(self.deep_view() =~= was.with_container(container.deep_view()));
        }
    }

    fn count_lists(&self) -> (r: usize)
        ensures
            r == lists(self.deep_view().containers, self.deep_view().containers.len()),
    {
        let ghost all = self.containers.deep_view();
        let mut count: usize = 0;
        let mut n: usize = 0;
        while n < self.containers.len()
            invariant
                n <= self.containers@.len(),
                count <= n,
                all == self.containers.deep_view(),
                count == lists(all, n as nat),
            decreases self.containers@.len() - n,
        {
            proof {
                assert(all[n as int] == self.containers@[n as int].deep_view());
            }
            match &self.containers[n] {
                Container::List(_) => {
                    count = count + 1;
                },
                _ => {},
            }
            n = n + 1;
        }
        count
    }

    fn push_item(&mut self)
        ensures
            final(self).deep_view() == old(self).deep_view().with_item(),
    {
        let ghost was = self.deep_view();
        let depth: usize = self.count_lists();
        let number: Option<u64> = if self.containers.len() == 0 {
            None
        } else {
            proof {
                assert(was.containers.last() == self.containers@.last().deep_view());
            }
            match &self.containers[self.containers.len() - 1] {
                Container::List(number) => *number,
                _ => None,
            }
        };
        if let Some(number) = number {
            let _ = self.containers.pop();
            let next: Container = Container::List(
                Some(
                    if number == u64::MAX {
                        number
                    } else {
                        number + 1
                    },
                ),
            );
            let mut words: Vec<char> = Vec::new();
            write_number(&mut words, number);
            append_str(&mut words, ". ");
            proof {
                assert(words@ =~= decimal(number as nat) + ". "@);
            }
            let item: Container = Container::Item { marker: string(words.as_slice()), used: false };
            self.containers.push(next);
            self.containers.push(item);
            proof {
                assert(self.containers.deep_view() =~= was.containers.drop_last().push(
                    next.deep_view(),
                ).push(item.deep_view()));
                assert(self.deep_view() =~= was.with_item());
            }
        } else {
            let at: usize = depth.saturating_sub(1) % 3;
            let marker: String = if at == 0 {
                "• ".to_string()
            } else if at == 1 {
                "◦ ".to_string()
            } else {
                "▪ ".to_string()
            };
            self.push_container(Container::Item { marker, used: false });
        }
    }

    fn push_span(&mut self, text: &str, style: Style, line: usize, page: &Page)
        ensures
            final(self).deep_view() == old(self).deep_view().with_row(
                seq![SpanView { text: text@, style }],
                Seq::empty(),
                line,
                page@,
            ),
    {
        let mut spans: Vec<Span> = Vec::new();
        spans.push(Span::styled(text.to_string(), style));
        let links = Vec::new();
        proof {
            assert(spans.deep_view() =~= seq![SpanView { text: text@, style }]);
            assert(links.deep_view() =~= Seq::empty());
        }
        self.push_row(spans, links, line, page);
    }

    /// A tag opens at byte `offset`.
    pub fn start(&mut self, tag: MarkdownTag, offset: usize, page: &Page)
        requires
            page.wf(),
        ensures
            final(self).deep_view() == old(self).deep_view().started(
                tag.deep_view(),
                offset,
                page@,
            ),
    {
        let ghost was = self.deep_view();
        let line: usize = page.line_of(offset);
        match tag {
            MarkdownTag::Paragraph => self.set_line(line),
            MarkdownTag::Heading(level) => {
                self.flush(page);
                self.set_line(line);
                self.push_inline(page.styles.heading(level));
            },
            MarkdownTag::BlockQuote(kind) => {
                self.flush(page);
                self.set_line(line);
                match kind {
                    Some(kind) => {
                        let (label, style) = page.styles.alert(kind);
                        self.push_container(Container::Quote(style));
                        self.push_span(label, style.bold(), line, page);
                    },
                    None => self.push_container(Container::Quote(page.styles.quote)),
                }
            },
            MarkdownTag::CodeBlock(language) => {
                self.flush(page);
                self.set_line(
                    if language.is_some() {
                        line + 1
                    } else {
                        line
                    },
                );
                self.code = Some(
                    match language {
                        Some(name) => (name, String::new()),
                        None => (String::new(), String::new()),
                    },
                );
                proof {
                    assert(self.deep_view() =~= was.started(tag.deep_view(), offset, page@));
                }
            },
            MarkdownTag::HtmlBlock => {
                self.flush(page);
                self.set_line(line);
                self.html = Some(String::new());
                proof {
                    assert(self.deep_view() =~= was.started(tag.deep_view(), offset, page@));
                }
            },
            MarkdownTag::List(start) => {
                self.flush(page);
                self.push_container(Container::List(start));
            },
            MarkdownTag::Item => {
                self.flush(page);
                self.set_line(line);
                self.push_item();
            },
            MarkdownTag::FootnoteDefinition(label) => {
                self.flush(page);
                self.set_line(line);
                self.push_text(bracketed(label.as_str(), "] "), page.styles.link, line);
            },
            MarkdownTag::Table(aligns) => {
                self.flush(page);
                let table: Table = Table { aligns, rows: Vec::new(), cells: Vec::new() };
                proof {
                    assert(table.deep_view() =~= (TableView {
                        aligns: aligns@,
                        rows: Seq::empty(),
                        cells: Seq::empty(),
                    }));
                }
                self.table = Some(table);
                proof {
                    assert(self.deep_view() =~= was.started(tag.deep_view(), offset, page@));
                }
            },
            MarkdownTag::TableHead | MarkdownTag::TableRow => {
                self.set_line(line);
                let table: Option<Table> = self.table.take();
                self.table = match table {
                    Some(mut table) => {
                        table.cells = Vec::new();
                        proof {
                            assert(table.cells.deep_view() =~= Seq::empty());
                        }
                        Some(table)
                    },
                    None => None,
                };
                proof {
                    assert(self.deep_view() =~= was.started(tag.deep_view(), offset, page@));
                }
            },
            MarkdownTag::TableCell => {
                self.pieces = Vec::new();
                proof {
                    assert(self.deep_view() =~= was.started(tag.deep_view(), offset, page@));
                }
            },
            MarkdownTag::Emphasis => self.push_inline(
                Style::plain().add_modifier(Modifiers { italic: true, ..Modifiers::none() }),
            ),
            MarkdownTag::Strong => self.push_inline(Style::plain().bold()),
            MarkdownTag::Strikethrough => self.push_inline(
                Style::plain().add_modifier(Modifiers { crossed_out: true, ..Modifiers::none() }),
            ),
            MarkdownTag::Link(target) => {
                self.push_inline(page.styles.link);
                self.link = Some(target);
                proof {
                    assert(self.deep_view() =~= was.started(tag.deep_view(), offset, page@));
                }
            },
            MarkdownTag::Image => {
                self.push_text("[image: ".to_string(), page.styles.dim, line);
                self.push_inline(page.styles.dim);
            },
            MarkdownTag::Other => {},
        }
    }
}

impl Sheet {
    /// A tag closes. `highlighted` holds the lines of the code blocks, block by block.
    pub fn end(&mut self, tag: MarkdownEnd, highlighted: &Vec<Vec<Vec<Span>>>, page: &Page)
        requires
            page.wf(),
        ensures
            final(self).deep_view() == old(self).deep_view().ended(
                tag,
                highlighted.deep_view(),
                page@,
            ),
    {
        let ghost was = self.deep_view();
        let ghost lit = highlighted.deep_view();
        match tag {
            MarkdownEnd::Paragraph => {
                self.flush(page);
                self.push_blank();
            },
            MarkdownEnd::Heading(level) => {
                self.pop_inline();
                self.flush(page);
                match level {
                    Level::H1 => self.push_stroke("━", page.styles.h1, page),
                    Level::H2 => self.push_stroke("─", page.styles.rule, page),
                    _ => {},
                }
                self.push_blank();
            },
            MarkdownEnd::BlockQuote => {
                self.flush(page);
                self.close_quote();
                self.push_blank();
            },
            MarkdownEnd::HtmlBlock => {
                let html: Option<String> = self.html.take();
                let letters: Vec<char> = match &html {
                    Some(html) => chars(html.as_str()),
                    None => Vec::new(),
                };
                let line: usize = self.block_line;
                proof {
                    assert(was.html is None ==> letters@ =~= Seq::empty());
                    assert(self.deep_view() =~= (SheetView { html: None, ..was }));
                }
                self.push_html(read_html(letters.as_slice()), line, page);
                self.flush(page);
                self.push_blank();
            },
            MarkdownEnd::CodeBlock => {
                let code: Option<(String, String)> = self.code.take();
                if code.is_none() {
                    proof {
                        assert(self.deep_view() =~= was);
                    }
                    return ;
                }
                proof {
                    assert(self.deep_view() =~= (SheetView { code: None, ..was }));
                }
                if self.blocks < highlighted.len() {
                    let at: usize = self.blocks;
                    self.blocks = at + 1;
                    proof {
                        assert(lit[at as int] == highlighted@[at as int].deep_view());
                        assert(self.deep_view() =~= (SheetView {
                            code: None,
                            blocks: (was.blocks + 1) as usize,
                            ..was
                        }));
                    }
                    self.push_code(&highlighted[at], page);
                }
                self.push_blank();
            },
            MarkdownEnd::List => {
                self.flush(page);
                self.pop_container();
                if self.count_lists() == 0 {
                    self.push_blank();
                }
            },
            MarkdownEnd::Item => {
                self.flush(page);
                self.pop_container();
            },
            MarkdownEnd::FootnoteDefinition => {
                self.flush(page);
                self.push_blank();
            },
            MarkdownEnd::TableCell => {
                let mut cell: Vec<Piece> = Vec::new();
                core::mem::swap(&mut cell, &mut self.pieces);
                let table: Option<Table> = self.table.take();
                self.table = match table {
                    Some(mut table) => {
                        let ghost cells = table.cells.deep_view();
                        table.cells.push(cell);
                        proof {
                            assert(table.cells.deep_view() =~= cells.push(cell.deep_view()));
                        }
                        Some(table)
                    },
                    None => None,
                };
                proof {
                    assert(self.deep_view() =~= was.ended(tag, lit, page@));
                }
            },
            MarkdownEnd::TableHead | MarkdownEnd::TableRow => {
                let line: usize = self.block_line;
                let table: Option<Table> = self.table.take();
                self.table = match table {
                    Some(mut table) => {
                        let ghost rows = table.rows.deep_view();
                        let mut cells: Vec<Vec<Piece>> = Vec::new();
                        core::mem::swap(&mut cells, &mut table.cells);
                        table.rows.push((cells, line));
                        proof {
                            assert(table.rows.deep_view() =~= rows.push((cells.deep_view(), line)));
                            assert(table.cells.deep_view() =~= Seq::empty());
                        }
                        Some(table)
                    },
                    None => None,
                };
                proof {
                    assert(self.deep_view() =~= was.ended(tag, lit, page@));
                }
            },
            MarkdownEnd::Table => {
                let table: Option<Table> = self.table.take();
                if let Some(table) = table {
                    proof {
                        assert(self.deep_view() =~= (SheetView { table: None, ..was }));
                    }
                    self.draw_table(&table, page);
                } else {
                    proof {
                        assert(self.deep_view() =~= was);
                    }
                }
                self.push_blank();
            },
            MarkdownEnd::Image => {
                self.pop_inline();
                let line: usize = if self.pieces.len() > 0 {
                    proof {
                        assert(was.pieces.last() == self.pieces@.last().deep_view());
                    }
                    self.pieces[self.pieces.len() - 1].line
                } else {
                    self.block_line
                };
                self.push_text("]".to_string(), page.styles.dim, line);
            },
            MarkdownEnd::Link => {
                self.pop_inline();
                self.link = None;
                proof {
                    assert(self.deep_view() =~= was.ended(tag, lit, page@));
                }
            },
            MarkdownEnd::Emphasis | MarkdownEnd::Strong | MarkdownEnd::Strikethrough =>
                self.pop_inline(),
            MarkdownEnd::Other => {},
        }
    }

    /// One event of the file, at byte `offset`.
    pub fn event(
        &mut self,
        event: MarkdownEvent,
        offset: usize,
        highlighted: &Vec<Vec<Vec<Span>>>,
        page: &Page,
    )
        requires
            page.wf(),
        ensures
            final(self).deep_view() == old(self).deep_view().after(
                event.deep_view(),
                offset,
                highlighted.deep_view(),
                page@,
            ),
    {
        let ghost was = self.deep_view();
        let ghost lit = highlighted.deep_view();
        let line: usize = page.line_of(offset);
        match event {
            MarkdownEvent::Start(tag) => self.start(tag, offset, page),
            MarkdownEvent::End(tag) => self.end(tag, highlighted, page),
            MarkdownEvent::Text(text) => {
                let code: Option<(String, String)> = self.code.take();
                match code {
                    Some((language, code)) => {
                        self.code = Some((language, joined(code.as_str(), text.as_str())));
                        proof {
                            assert(self.deep_view() =~= was.after(
                                event.deep_view(),
                                offset,
                                lit,
                                page@,
                            ));
                        }
                    },
                    None => {
                        proof {
                            assert(self.deep_view() =~= was);
                        }
                        let style: Style = self.style(page);
                        self.push_text(text, style, line);
                    },
                }
            },
            MarkdownEvent::Html(html) => {
                let block: Option<String> = self.html.take();
                self.html = match block {
                    Some(block) => Some(joined(block.as_str(), html.as_str())),
                    None => None,
                };
                proof {
                    assert(self.deep_view() =~= was.after(event.deep_view(), offset, lit, page@));
                }
            },
            MarkdownEvent::InlineHtml(html) => {
                let letters: Vec<char> = chars(html.as_str());
                self.push_inline_html(read_html(letters.as_slice()), line, page);
            },
            MarkdownEvent::Code(text)
            | MarkdownEvent::InlineMath(text)
            | MarkdownEvent::DisplayMath(text) => {
                let style: Style = self.style(page).patch(page.styles.code);
                self.push_text(text, style, line);
            },
            MarkdownEvent::FootnoteReference(label) => {
                self.push_text(bracketed(label.as_str(), "]"), page.styles.link, line);
            },
            MarkdownEvent::SoftBreak => {
                let style: Style = self.style(page);
                self.push_text(" ".to_string(), style, line);
            },
            MarkdownEvent::HardBreak => self.flush(page),
            MarkdownEvent::Rule => {
                self.flush(page);
                self.set_line(line);
                self.push_stroke("─", page.styles.rule, page);
                self.push_blank();
            },
            MarkdownEvent::TaskListMarker(checked) => {
                if self.containers.len() == 0 {
                    return ;
                }
                proof {
                    assert(was.containers.last() == self.containers@.last().deep_view());
                }
                let last: Option<Container> = self.containers.pop();
                if let Some(last) = last {
                    let ghost rest = self.containers.deep_view();
                    proof {
                        assert(rest =~= was.containers.drop_last());
                        assert(was.containers =~= rest.push(last.deep_view()));
                    }
                    let next: Container = match last {
                        Container::Item { used, .. } => Container::Item {
                            marker: if checked {
                                "☑ ".to_string()
                            } else {
                                "☐ ".to_string()
                            },
                            used,
                        },
                        other => other,
                    };
                    self.containers.push(next);
                    proof {
                        assert(self.containers.deep_view() =~= rest.push(next.deep_view()));
                        assert(self.deep_view() =~= was.after(
                            event.deep_view(),
                            offset,
                            lit,
                            page@,
                        ));
                    }
                }
            },
        }
    }
}

/// Draws what was read of a file as rows, the lines of its code blocks as they were
/// highlighted.
pub fn render_events(
    events: Vec<(MarkdownEvent, usize)>,
    highlighted: &Vec<Vec<Vec<Span>>>,
    page: &Page,
) -> (r: Vec<Row>)
    requires
        page.wf(),
    ensures
        r.deep_view() == rows_of(events.deep_view(), highlighted.deep_view(), page@),
{
    let mut sheet: Sheet = Sheet::new();
    let ghost all = events.deep_view();
    let ghost lit = highlighted.deep_view();
    for pair in it: events
        invariant
            it.seq() == events@,
            all == events.deep_view(),
            lit == highlighted.deep_view(),
            page.wf(),
            SheetView::new().after_all(all, 0, lit, page@) == sheet.deep_view().after_all(
                all,
                it.index() as int,
                lit,
                page@,
            ),
    {
        let (event, offset) = pair;
        proof {
            assert(all[it.index() as int] == (event.deep_view(), offset));
        }
        sheet.event(event, offset, highlighted, page);
    }
    sheet.flush(page);
    let mut rows: Vec<Row> = sheet.rows;
    let ghost drawn = rows.deep_view();
    while rows.len() > 0 && rows[rows.len() - 1].blank
        invariant
            without_last_blanks(drawn) == without_last_blanks(rows.deep_view()),
        decreases rows@.len(),
    {
        let ghost before = rows.deep_view();
        proof {
            assert(before.last() == rows@.last().deep_view());
        }
        let _ = rows.pop();
        proof {
            assert(rows.deep_view() =~= before.drop_last());
        }
    }
    proof {
        assert(rows@.len() > 0 ==> rows.deep_view().last() == rows@.last().deep_view());
    }
    rows
}

/// Draws `text` as rows `width` columns wide.
pub fn render_markdown(
    text: &str,
    width: u16,
    theme: Styles,
    highlighted: &Vec<Vec<Vec<Span>>>,
) -> (r: Vec<Row>)
    ensures
        r.deep_view() == rows_of(
            markdown_of(text@),
            highlighted.deep_view(),
            (PageView {
                width: max(width as int, 1) as usize,
                styles: Styles::drawn_with(theme),
                starts: line_starts(encode_utf8(text@), encode_utf8(text@).len()),
            }),
        ),
{
    let page: Page = Page::new(text, width, Styles::new(theme));
    render_events(read_markdown(text), highlighted, &page)
}

// ---------------------------------------------------------------------------------------
// Code to highlight
// ---------------------------------------------------------------------------------------

/// The code blocks from event `k` on, each as its language and its text: `open` is the one
/// being read.
pub open spec fn blocks_from(
    events: Seq<(MarkdownEventView, usize)>,
    k: int,
    open: Option<(Seq<char>, Seq<char>)>,
) -> Seq<(Seq<char>, Seq<char>)>
    decreases events.len() - k,
{
    if k >= events.len() {
        Seq::empty()
    } else {
        match (events[k].0, open) {
            (MarkdownEventView::Start(MarkdownTagView::CodeBlock(language)), _) => blocks_from(
                events,
                k + 1,
                Some(
                    match language {
                        Some(name) => (name, Seq::empty()),
                        None => (Seq::empty(), Seq::empty()),
                    },
                ),
            ),
            (MarkdownEventView::Text(text), Some((language, code))) => blocks_from(
                events,
                k + 1,
                Some((language, code + text)),
            ),
            (MarkdownEventView::End(MarkdownEnd::CodeBlock), Some((language, code))) => seq![
                (language, without_last_breaks(code)),
            ] + blocks_from(events, k + 1, None),
            _ => blocks_from(events, k + 1, open),
        }
    }
}

fn trim_breaks(text: &str) -> (r: String)
    ensures
        r@ == without_last_breaks(text@),
{
    let letters: Vec<char> = chars(text);
    let mut n: usize = letters.len();
    proof {
        assert(letters@.subrange(0, n as int) =~= text@);
    }
    while n > 0 && letters[n - 1] == '\n'
        invariant
            n <= letters@.len(),
            without_last_breaks(text@) == without_last_breaks(letters@.subrange(0, n as int)),
        decreases n,
    {
        proof {
            assert(letters@.subrange(0, n as int).drop_last() =~= letters@.subrange(0, n - 1));
        }
        n = n - 1;
    }
    string(slice_subrange(letters.as_slice(), 0, n))
}

/// The code blocks of a file in order, each as its language and its text, for a
/// highlighter to draw their lines.
pub fn code_blocks(events: &Vec<(MarkdownEvent, usize)>) -> (r: Vec<(String, String)>)
    ensures
        r.deep_view() == blocks_from(events.deep_view(), 0, None),
{
    let ghost all = events.deep_view();
    let mut blocks: Vec<(String, String)> = Vec::new();
    let mut open: Option<(String, String)> = None;
    let mut k: usize = 0;
    proof {
        assert(blocks.deep_view() + blocks_from(all, 0, None) =~= blocks_from(all, 0, None));
    }
    while k < events.len()
        invariant
            k <= events@.len(),
            all == events.deep_view(),
            blocks.deep_view() + blocks_from(all, k as int, open.deep_view()) == blocks_from(
                all,
                0,
                None,
            ),
        decreases events@.len() - k,
    {
        let ghost before = blocks.deep_view();
        let ghost rest = blocks_from(all, k as int, open.deep_view());
        proof {
            assert(all[k as int].0 == events@[k as int].0.deep_view());
        }
        match &events[k].0 {
            MarkdownEvent::Start(MarkdownTag::CodeBlock(language)) => {
                open = Some(
                    match language {
                        Some(name) => (name.clone(), String::new()),
                        None => (String::new(), String::new()),
                    },
                );
            },
            MarkdownEvent::Text(text) => {
                open = match open {
                    Some((language, code)) => Some((language, joined(code.as_str(), text.as_str()))),
                    None => None,
                };
            },
            MarkdownEvent::End(MarkdownEnd::CodeBlock) => {
                if let Some((language, code)) = open {
                    let block: (String, String) = (language, trim_breaks(code.as_str()));
                    blocks.push(block);
                    proof {
                        assert(blocks.deep_view() =~= before.push(block.deep_view()));
                    }
                }
                open = None;
            },
            _ => {},
        }
        k = k + 1;
        proof {
            assert(blocks.deep_view() + blocks_from(all, k as int, open.deep_view()) =~= before
                + rest);
        }
    }
    proof {
        assert(blocks.deep_view() + Seq::empty() =~= blocks.deep_view());
    }
    blocks
}

/// The code blocks of a text, each as its language and its text.
pub fn markdown_code(text: &str) -> (r: Vec<(String, String)>)
    ensures
        r.deep_view() == blocks_from(markdown_of(text@), 0, None),
{
    let events: Vec<(MarkdownEvent, usize)> = read_markdown(text);
    code_blocks(&events)
}

} // verus!
