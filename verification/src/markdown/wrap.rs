//! Text broken into rows, and cells fitted to their columns.

use crate::graphics::{Span, SpanView, Style};
use crate::text::{blank, chars, ink, is_space, lemma_ink_blank, lemma_ink_joined, lemma_ink_one,
    same_str, string, whitespace};
use crate::width::{capped, columns, glyph_columns, glyph_width, lemma_columns_push, text_width,
    width_of_text};
use vstd::prelude::*;

verus! {

/// A run of text as the parser handed it, with the style it is drawn in and the line of
/// the file it came from.
#[derive(Debug)]
pub struct Piece {
    pub text: String,
    pub style: Style,
    pub line: usize,
    /// Where the text goes when it is a link.
    pub link: Option<String>,
}

#[verifier::ext_equal]
pub struct PieceView {
    pub text: Seq<char>,
    pub style: Style,
    pub line: usize,
    pub link: Option<Seq<char>>,
}

impl DeepView for Piece {
    type V = PieceView;

    open spec fn deep_view(&self) -> PieceView {
        PieceView {
            text: self.text@,
            style: self.style,
            line: self.line,
            link: self.link.deep_view(),
        }
    }
}

/// A link as drawn: the columns of its row it covers, and where it goes.
#[derive(Debug, Clone, PartialEq)]
pub struct Link {
    pub from: usize,
    pub to: usize,
    pub target: String,
}

#[verifier::ext_equal]
pub struct LinkView {
    pub from: usize,
    pub to: usize,
    pub target: Seq<char>,
}

impl DeepView for Link {
    type V = LinkView;

    open spec fn deep_view(&self) -> LinkView {
        LinkView { from: self.from, to: self.to, target: self.target@ }
    }
}

/// A row of wrapped text: its spans, the line of the file its first word is on, and the
/// links on it by the columns they cover.
#[derive(Debug)]
pub struct Wrapped {
    pub spans: Vec<Span>,
    pub line: usize,
    pub links: Vec<Link>,
}

#[verifier::ext_equal]
pub struct WrappedView {
    pub spans: Seq<SpanView>,
    pub line: usize,
    pub links: Seq<LinkView>,
}

impl DeepView for Wrapped {
    type V = WrappedView;

    open spec fn deep_view(&self) -> WrappedView {
        WrappedView {
            spans: self.spans.deep_view(),
            line: self.line,
            links: self.links.deep_view(),
        }
    }
}

/// A run of one style inside a row, and the link it is part of.
#[derive(Debug)]
pub struct Run {
    pub text: Vec<char>,
    pub style: Style,
    pub link: Option<String>,
}

#[verifier::ext_equal]
pub struct RunView {
    pub text: Seq<char>,
    pub style: Style,
    pub link: Option<Seq<char>>,
}

impl DeepView for Run {
    type V = RunView;

    open spec fn deep_view(&self) -> RunView {
        RunView { text: self.text@, style: self.style, link: self.link.deep_view() }
    }
}

/// A character, and the piece it stands in.
#[derive(Debug, Clone, Copy)]
pub struct Glyph {
    pub c: char,
    pub piece: usize,
}

// ---------------------------------------------------------------------------------------
// Options of text
// ---------------------------------------------------------------------------------------

fn copy_link(link: &Option<String>) -> (r: Option<String>)
    ensures
        r.deep_view() == link.deep_view(),
{
    match link {
        Some(target) => Some(target.clone()),
        None => None,
    }
}

fn same_link(a: &Option<String>, b: &Option<String>) -> (r: bool)
    ensures
        r == (a.deep_view() == b.deep_view()),
{
    match (a, b) {
        (Some(a), Some(b)) => same_str(a.as_str(), b.as_str()),
        (None, None) => true,
        _ => false,
    }
}

// ---------------------------------------------------------------------------------------
// Rows
// ---------------------------------------------------------------------------------------

/// The characters of the first `n` pieces, in order.
pub open spec fn glyphs(pieces: Seq<PieceView>, n: nat) -> Seq<Glyph>
    decreases n,
{
    if n == 0 {
        Seq::empty()
    } else {
        glyphs(pieces, (n - 1) as nat) + glyphs_of(pieces[n - 1].text, (n - 1) as usize)
    }
}

pub open spec fn glyph(c: char, piece: usize) -> Glyph {
    Glyph { c, piece }
}

impl Glyph {
    pub fn new(c: char, piece: usize) -> (r: Glyph)
        ensures
            r == glyph(c, piece),
    {
        Glyph { c, piece }
    }
}

pub open spec fn glyphs_of(text: Seq<char>, piece: usize) -> Seq<Glyph> {
    text.map_values(|c: char| glyph(c, piece))
}

/// The first glyph from `i` on that is not white space, or the end.
pub open spec fn word_start(glyphs: Seq<Glyph>, i: int) -> int
    decreases glyphs.len() - i,
{
    if 0 <= i < glyphs.len() && is_space(glyphs[i].c) {
        word_start(glyphs, i + 1)
    } else {
        i
    }
}

/// The first glyph from `i` on that is white space, or the end.
pub open spec fn word_end(glyphs: Seq<Glyph>, i: int) -> int
    decreases glyphs.len() - i,
{
    if 0 <= i < glyphs.len() && !is_space(glyphs[i].c) {
        word_end(glyphs, i + 1)
    } else {
        i
    }
}

/// The columns of the glyphs from `i` up to `end`.
pub open spec fn glyphs_columns(glyphs: Seq<Glyph>, i: int, end: int) -> nat
    decreases end - i,
{
    if i >= end {
        0
    } else {
        glyphs_columns(glyphs, i, end - 1) + glyph_columns(glyphs[end - 1].c)
    }
}

/// `runs` with one more character: at the end of the last run where it has that style and
/// link, else in a run of its own.
pub open spec fn with_glyph(
    runs: Seq<RunView>,
    c: char,
    style: Style,
    link: Option<Seq<char>>,
) -> Seq<RunView> {
    if runs.len() > 0 && runs.last().style == style && runs.last().link == link {
        runs.drop_last().push(RunView { text: runs.last().text.push(c), ..runs.last() })
    } else {
        runs.push(RunView { text: seq![c], style, link })
    }
}

/// The links of the runs from `k` on, those before `column` being `links`. Runs of one
/// link that stand side by side are one link.
pub open spec fn links_from(
    runs: Seq<RunView>,
    k: int,
    column: usize,
    links: Seq<LinkView>,
) -> Seq<LinkView>
    decreases runs.len() - k,
{
    if k >= runs.len() {
        links
    } else {
        let end = capped(column + width_of_text(runs[k].text));
        links_from(
            runs,
            k + 1,
            end,
            match runs[k].link {
                None => links,
                Some(target) => if links.len() > 0 && links.last().to == column
                    && links.last().target == target {
                    links.drop_last().push(LinkView { to: end, ..links.last() })
                } else {
                    links.push(LinkView { from: column, to: end, target })
                },
            },
        )
    }
}

pub open spec fn span_of(run: RunView) -> SpanView {
    SpanView { text: run.text, style: run.style }
}

/// The spans of runs, one for each.
pub open spec fn spans_of(runs: Seq<RunView>) -> Seq<SpanView> {
    runs.map_values(|run: RunView| span_of(run))
}

/// A row of runs as it is drawn.
pub open spec fn finished(runs: Seq<RunView>, line: usize) -> WrappedView {
    WrappedView { spans: spans_of(runs), line, links: links_from(runs, 0, 0, Seq::empty()) }
}

/// Text being broken into rows: the rows that are done, and the row being filled, with its
/// width and the line it starts on.
#[verifier::ext_equal]
pub struct Filling {
    pub rows: Seq<WrappedView>,
    pub runs: Seq<RunView>,
    pub width: nat,
    pub line: usize,
}

impl Filling {
    /// The row being filled is done, where there is anything on it.
    pub open spec fn broken(self, line: usize) -> Filling {
        Filling {
            rows: self.rows.push(finished(self.runs, self.line)),
            runs: Seq::empty(),
            width: 0,
            line,
        }
    }

    /// One more character, on a new row where it does not fit on this one.
    pub open spec fn with_char(self, glyph: Glyph, pieces: Seq<PieceView>, line: usize, room: nat)
        -> Filling {
        let n = glyph_columns(glyph.c);
        let row = if self.runs.len() > 0 && self.width + n > room {
            self.broken(line)
        } else {
            self
        };
        let piece = pieces[glyph.piece as int];
        Filling {
            runs: with_glyph(row.runs, glyph.c, piece.style, piece.link),
            width: row.width + n,
            ..row
        }
    }

    /// The glyphs from `k` up to `end`, all of a word that starts on `line`.
    pub open spec fn with_chars(
        self,
        glyphs: Seq<Glyph>,
        k: int,
        end: int,
        pieces: Seq<PieceView>,
        line: usize,
        room: nat,
    ) -> Filling
        decreases end - k,
    {
        if k >= end {
            self
        } else {
            self.with_char(glyphs[k], pieces, line, room).with_chars(
                glyphs,
                k + 1,
                end,
                pieces,
                line,
                room,
            )
        }
    }

    /// The word from `start` up to `end`: on the row being filled, after a space, where it
    /// fits there; else on a new one.
    pub open spec fn with_word(
        self,
        glyphs: Seq<Glyph>,
        start: int,
        end: int,
        pieces: Seq<PieceView>,
        room: nat,
        plain: Style,
    ) -> Filling {
        let first = pieces[glyphs[start].piece as int];
        let row = if self.runs.len() > 0 && self.width + 1 + glyphs_columns(glyphs, start, end)
            > room {
            self.broken(first.line)
        } else {
            self
        };
        let spaced = if row.runs.len() == 0 {
            Filling { line: first.line, ..row }
        } else {
            // A space between two runs of one style wears it, so a link stays underlined;
            // and between two runs of one link it is the link's, so the link stays one.
            let before = row.runs.last();
            Filling {
                runs: row.runs.push(
                    RunView {
                        text: seq![' '],
                        style: if before.style == first.style {
                            before.style
                        } else {
                            plain
                        },
                        link: if before.link == first.link {
                            before.link
                        } else {
                            None
                        },
                    },
                ),
                width: row.width + 1,
                ..row
            }
        };
        spaced.with_chars(glyphs, start, end, pieces, first.line, room)
    }

    /// The words from glyph `i` on.
    pub open spec fn with_words(
        self,
        glyphs: Seq<Glyph>,
        i: int,
        pieces: Seq<PieceView>,
        room: nat,
        plain: Style,
    ) -> Filling
        decreases glyphs.len() - i,
        via Self::words_advance
    {
        let start = word_start(glyphs, i);
        let end = word_end(glyphs, start);
        if i < 0 || start >= glyphs.len() {
            self
        } else {
            self.with_word(glyphs, start, end, pieces, room, plain).with_words(
                glyphs,
                end,
                pieces,
                room,
                plain,
            )
        }
    }

    #[via_fn]
    proof fn words_advance(
        self,
        glyphs: Seq<Glyph>,
        i: int,
        pieces: Seq<PieceView>,
        room: nat,
        plain: Style,
    ) {
        if 0 <= i < glyphs.len() {
            lemma_word(glyphs, i);
        }
    }

    /// The rows, with the one being filled where there is anything on it.
    pub open spec fn all_rows(self) -> Seq<WrappedView> {
        if self.runs.len() == 0 {
            self.rows
        } else {
            self.rows.push(finished(self.runs, self.line))
        }
    }
}

pub proof fn lemma_word_start(glyphs: Seq<Glyph>, i: int)
    requires
        0 <= i <= glyphs.len(),
    ensures
        i <= word_start(glyphs, i) <= glyphs.len(),
        word_start(glyphs, i) < glyphs.len() ==> !is_space(glyphs[word_start(glyphs, i)].c),
    decreases glyphs.len() - i,
{
    if i < glyphs.len() && is_space(glyphs[i].c) {
        lemma_word_start(glyphs, i + 1);
    }
}

proof fn lemma_word_end(glyphs: Seq<Glyph>, i: int)
    requires
        0 <= i <= glyphs.len(),
    ensures
        i <= word_end(glyphs, i) <= glyphs.len(),
    decreases glyphs.len() - i,
{
    if i < glyphs.len() && !is_space(glyphs[i].c) {
        lemma_word_end(glyphs, i + 1);
    }
}

pub proof fn lemma_word(glyphs: Seq<Glyph>, i: int)
    requires
        0 <= i <= glyphs.len(),
    ensures
        ({
            let start = word_start(glyphs, i);
            let end = word_end(glyphs, start);
            i <= start <= glyphs.len() && (start < glyphs.len() ==> start < end <= glyphs.len())
        }),
{
    lemma_word_start(glyphs, i);
    let start = word_start(glyphs, i);
    if start < glyphs.len() {
        lemma_word_end(glyphs, start + 1);
    }
}

/// Pieces of text as rows no wider than `room`, broken between words where that can be
/// done and through a word only when the word alone is wider than a row.
pub open spec fn wrapped(pieces: Seq<PieceView>, room: nat, plain: Style) -> Seq<WrappedView> {
    let all = glyphs(pieces, pieces.len());
    (Filling { rows: Seq::empty(), runs: Seq::empty(), width: 0, line: 0 }).with_words(
        all,
        0,
        pieces,
        room,
        plain,
    ).all_rows()
}

fn read_glyphs(pieces: &Vec<Piece>) -> (r: Vec<Glyph>)
    ensures
        r@ == glyphs(pieces.deep_view(), pieces@.len()),
        forall|i: int| 0 <= i < r@.len() ==> (#[trigger] r@[i]).piece < pieces@.len(),
{
    let mut out: Vec<Glyph> = Vec::new();
    let mut n: usize = 0;
    while n < pieces.len()
        invariant
            n <= pieces@.len(),
            out@ == glyphs(pieces.deep_view(), n as nat),
            forall|i: int| 0 <= i < out@.len() ==> (#[trigger] out@[i]).piece < n,
        decreases pieces@.len() - n,
    {
        let text: Vec<char> = chars(pieces[n].text.as_str());
        let ghost before = out@;
        let mut k: usize = 0;
        while k < text.len()
            invariant
                k <= text@.len(),
                out@ == before + glyphs_of(text@, n).take(k as int),
                forall|i: int| 0 <= i < out@.len() ==> (#[trigger] out@[i]).piece <= n,
            decreases text@.len() - k,
        {
            out.push(Glyph::new(text[k], n));
            k = k + 1;
            proof {
                assert(out@ =~= before + glyphs_of(text@, n).take(k as int));
            }
        }
        proof {
            assert(glyphs_of(text@, n).take(k as int) =~= glyphs_of(text@, n));
            assert(pieces.deep_view()[n as int].text == text@);
        }
        n = n + 1;
    }
    out
}

/// Turns the runs of a row into its spans and its links, the links by column.
fn finish_row(runs: Vec<Run>, line: usize) -> (r: Wrapped)
    ensures
        r.deep_view() == finished(runs.deep_view(), line),
{
    let ghost all = runs.deep_view();
    let mut spans: Vec<Span> = Vec::new();
    let mut links: Vec<Link> = Vec::new();
    let mut column: usize = 0;
    let mut k: usize = 0;
    proof {
        assert(links.deep_view() =~= Seq::empty());
        assert(spans.deep_view() =~= spans_of(all).take(0));
    }
    while k < runs.len()
        invariant
            k <= runs@.len(),
            all == runs.deep_view(),
            spans@.len() == k,
            spans.deep_view() == spans_of(all).take(k as int),
            links_from(all, 0, 0, Seq::empty()) == links_from(
                all,
                k as int,
                column,
                links.deep_view(),
            ),
        decreases runs@.len() - k,
    {
        let run: &Run = &runs[k];
        let text: String = string(run.text.as_slice());
        let end: usize = column.saturating_add(text_width(text.as_str()));
        let ghost were = links.deep_view();
        proof {
            assert(all[k as int] == run.deep_view());
        }
        if let Some(target) = &run.link {
            match links.pop() {
                Some(mut last) => {
                    proof {
                        assert(were.last() == last.deep_view());
                        assert(links.deep_view() =~= were.drop_last());
                    }
                    if last.to == column && same_str(last.target.as_str(), target.as_str()) {
                        last.to = end;
                        links.push(last);
                        proof {
                            assert(links.deep_view() =~= were.drop_last().push(last.deep_view()));
                        }
                    } else {
                        let link: Link = Link { from: column, to: end, target: target.clone() };
                        links.push(last);
                        links.push(link);
                        proof {
                            assert(links.deep_view() =~= were.push(link.deep_view()));
                        }
                    }
                },
                None => {
                    let link: Link = Link { from: column, to: end, target: target.clone() };
                    links.push(link);
                    proof {
                        assert(links.deep_view() =~= were.push(link.deep_view()));
                    }
                },
            }
        }
        column = end;
        spans.push(Span::styled(text, run.style));
        k = k + 1;
        proof {
            assert(spans.deep_view() =~= spans_of(all).take(k as int));
        }
    }
    proof {
        assert(spans_of(all).take(k as int) =~= spans_of(all));
    }
    Wrapped { spans, line, links }
}

struct Fill {
    rows: Vec<Wrapped>,
    runs: Vec<Run>,
    width: usize,
    line: usize,
}

impl Fill {
    spec fn filling(self) -> Filling {
        Filling {
            rows: self.rows.deep_view(),
            runs: self.runs.deep_view(),
            width: self.width as nat,
            line: self.line,
        }
    }

    /// The row being filled is within the room, but for a character wider than it.
    spec fn fits(self, room: usize) -> bool {
        &&& self.width <= room || self.width <= 2
        &&& self.runs@.len() == 0 ==> self.width == 0
    }

    fn end_row(&mut self, line: usize)
        ensures
            final(self).filling() == old(self).filling().broken(line),
            final(self).width == 0,
            final(self).runs@.len() == 0,
    {
        let mut runs: Vec<Run> = Vec::new();
        let ghost before = self.filling();
        let ghost rows = self.rows.deep_view();
        core::mem::swap(&mut runs, &mut self.runs);
        let row: Wrapped = finish_row(runs, self.line);
        self.rows.push(row);
        self.width = 0;
        self.line = line;
        proof {
            assert(self.rows.deep_view() =~= rows.push(row.deep_view()));
            assert(self.runs.deep_view() =~= Seq::empty());
            assert(self.filling() =~= before.broken(line));
        }
    }

    fn put_char(&mut self, glyph: Glyph, pieces: &Vec<Piece>, line: usize, room: usize)
        requires
            old(self).fits(room),
            room <= u16::MAX,
            glyph.piece < pieces@.len(),
        ensures
            final(self).filling() == old(self).filling().with_char(
                glyph,
                pieces.deep_view(),
                line,
                room as nat,
            ),
            final(self).fits(room),
            final(self).runs@.len() > 0,
    {
        let ghost before = self.filling();
        let n: usize = glyph_width(glyph.c);
        if self.runs.len() > 0 && self.width + n > room {
            self.end_row(line);
        }
        let ghost row = self.filling();
        let piece: &Piece = &pieces[glyph.piece];
        proof {
            assert(pieces.deep_view()[glyph.piece as int] == piece.deep_view());
        }
        let ghost runs = self.runs.deep_view();
        match self.runs.pop() {
            Some(mut last) => {
                proof {
                    assert(runs.last() == last.deep_view());
                    assert(self.runs.deep_view() =~= runs.drop_last());
                }
                if last.style == piece.style && same_link(&last.link, &piece.link) {
                    last.text.push(glyph.c);
                    self.runs.push(last);
                    proof {
                        assert(self.runs.deep_view() =~= runs.drop_last().push(last.deep_view()));
                    }
                } else {
                    self.runs.push(last);
                    let run: Run = Run {
                        text: vec![glyph.c],
                        style: piece.style,
                        link: copy_link(&piece.link),
                    };
                    proof {
                        assert(run.text@ =~= seq![glyph.c]);
                    }
                    self.runs.push(run);
                    proof {
                        assert(self.runs.deep_view() =~= runs.push(run.deep_view()));
                    }
                }
            },
            None => {
                let run: Run = Run {
                    text: vec![glyph.c],
                    style: piece.style,
                    link: copy_link(&piece.link),
                };
                proof {
                    assert(run.text@ =~= seq![glyph.c]);
                }
                self.runs.push(run);
                proof {
                    assert(self.runs.deep_view() =~= runs.push(run.deep_view()));
                }
            },
        }
        self.width = self.width + n;
        proof {
            assert(self.filling() =~= before.with_char(
                glyph,
                pieces.deep_view(),
                line,
                room as nat,
            ));
        }
    }

    fn put_space(&mut self, piece: &Piece, plain: Style, gap: usize)
        requires
            gap == 1,
            old(self).runs@.len() > 0,
            old(self).width < usize::MAX,
        ensures
            ({
                let row = old(self).filling();
                let before = row.runs.last();
                final(self).filling() == (Filling {
                    runs: row.runs.push(
                        RunView {
                            text: seq![' '],
                            style: if before.style == piece.style {
                                before.style
                            } else {
                                plain
                            },
                            link: if before.link == piece.deep_view().link {
                                before.link
                            } else {
                                None
                            },
                        },
                    ),
                    width: row.width + 1,
                    ..row
                })
            }),
            final(self).width == old(self).width + 1,
            final(self).runs@.len() > 0,
    {
        let ghost was = self.filling();
        let ghost runs = self.runs.deep_view();
        let before: &Run = &self.runs[self.runs.len() - 1];
        proof {
            assert(runs.last() == before.deep_view());
        }
        let style: Style = if before.style == piece.style {
            before.style
        } else {
            plain
        };
        let link: Option<String> = if same_link(&before.link, &piece.link) {
            copy_link(&before.link)
        } else {
            None
        };
        let run: Run = Run { text: vec![' '], style, link };
        proof {
            assert(run.text@ =~= seq![' ']);
        }
        self.runs.push(run);
        self.width = self.width + gap;
        proof {
            assert(self.runs.deep_view() =~= runs.push(run.deep_view()));
            assert(self.rows.deep_view() == was.rows);
        }
    }

    fn put_word(
        &mut self,
        glyphs: &Vec<Glyph>,
        start: usize,
        end: usize,
        pieces: &Vec<Piece>,
        room: usize,
        plain: Style,
        gap: usize,
    )
        requires
            gap == 1,
            old(self).fits(room),
            room <= u16::MAX,
            start < end <= glyphs@.len(),
            forall|i: int| 0 <= i < glyphs@.len() ==> (#[trigger] glyphs@[i]).piece < pieces@.len(),
        ensures
            final(self).filling() == old(self).filling().with_word(
                glyphs@,
                start as int,
                end as int,
                pieces.deep_view(),
                room as nat,
                plain,
            ),
            final(self).fits(room),
    {
        let ghost was = self.filling();
        let ghost all = pieces.deep_view();
        let mut wide: usize = 0;
        let mut k: usize = start;
        while k < end
            invariant
                start <= k <= end <= glyphs@.len(),
                wide == capped(glyphs_columns(glyphs@, start as int, k as int) as int),
            decreases end - k,
        {
            wide = wide.saturating_add(glyph_width(glyphs[k].c));
            k = k + 1;
        }
        proof {
            assert(glyphs@[start as int].piece < pieces@.len());
        }
        let piece: &Piece = &pieces[glyphs[start].piece];
        proof {
            assert(all[glyphs@[start as int].piece as int] == piece.deep_view());
        }
        let line: usize = piece.line;
        if self.runs.len() > 0 && (self.width + gap > room || wide > room - (self.width + gap)) {
            self.end_row(line);
        }
        if self.runs.len() == 0 {
            self.line = line;
        } else {
            self.put_space(piece, plain, gap);
        }
        let ghost spaced = self.filling();
        let mut k: usize = start;
        while k < end
            invariant
                start <= k <= end <= glyphs@.len(),
                room <= u16::MAX,
                self.fits(room),
                all == pieces.deep_view(),
                forall|i: int|
                    0 <= i < glyphs@.len() ==> (#[trigger] glyphs@[i]).piece < pieces@.len(),
                spaced.with_chars(glyphs@, start as int, end as int, all, line, room as nat)
                    == self.filling().with_chars(
                    glyphs@,
                    k as int,
                    end as int,
                    all,
                    line,
                    room as nat,
                ),
            decreases end - k,
        {
            self.put_char(glyphs[k], pieces, line, room);
            k = k + 1;
        }
    }
}

/// Breaks the pieces into rows no wider than `room`, between words where it can and
/// through a word only when the word alone is wider than a row.
pub fn wrap(pieces: &Vec<Piece>, room: usize, plain: Style) -> (r: Vec<Wrapped>)
    requires
        room <= u16::MAX,
    ensures
        r.deep_view() == wrapped(pieces.deep_view(), room as nat, plain),
        forall|k: int|
            0 <= k < r@.len() ==> row_fits(#[trigger] r.deep_view()[k].spans, room as nat),
{
    let gap: usize = glyph_width(' ');
    let all: Vec<Glyph> = read_glyphs(pieces);
    let mut fill: Fill = Fill { rows: Vec::new(), runs: Vec::new(), width: 0, line: 0 };
    let ghost none = Filling { rows: Seq::empty(), runs: Seq::empty(), width: 0, line: 0 };
    proof {
        assert(fill.filling() =~= none);
    }
    let mut i: usize = 0;
    loop
        invariant
            i <= all@.len(),
            room <= u16::MAX,
            gap == 1,
            fill.fits(room),
            forall|i: int| 0 <= i < all@.len() ==> (#[trigger] all@[i]).piece < pieces@.len(),
            none.with_words(all@, 0, pieces.deep_view(), room as nat, plain)
                == fill.filling().with_words(
                all@,
                i as int,
                pieces.deep_view(),
                room as nat,
                plain,
            ),
        ensures
            none.with_words(all@, 0, pieces.deep_view(), room as nat, plain) == fill.filling(),
        decreases all@.len() - i,
    {
        proof {
            lemma_word(all@, i as int);
        }
        let mut start: usize = i;
        while start < all.len() && whitespace(all[start].c)
            invariant
                i <= start <= all@.len(),
                word_start(all@, i as int) == word_start(all@, start as int),
            decreases all@.len() - start,
        {
            start = start + 1;
        }
        if start == all.len() {
            break;
        }
        let mut end: usize = start;
        while end < all.len() && !whitespace(all[end].c)
            invariant
                start <= end <= all@.len(),
                word_end(all@, start as int) == word_end(all@, end as int),
            decreases all@.len() - end,
        {
            end = end + 1;
        }
        fill.put_word(&all, start, end, pieces, room, plain, gap);
        i = end;
    }
    if fill.runs.len() > 0 {
        let line: usize = fill.line;
        fill.end_row(line);
    }
    proof {
        rows_fit_the_room(pieces.deep_view(), room as nat, plain);
    }
    fill.rows
}

// ---------------------------------------------------------------------------------------
// What wrapping keeps
// ---------------------------------------------------------------------------------------

/// The text of a row.
pub open spec fn spans_text(spans: Seq<SpanView>) -> Seq<char>
    decreases spans.len(),
{
    if spans.len() == 0 {
        Seq::empty()
    } else {
        spans_text(spans.drop_last()) + spans.last().text
    }
}

/// The text of rows, one after the other.
pub open spec fn rows_text(rows: Seq<WrappedView>) -> Seq<char>
    decreases rows.len(),
{
    if rows.len() == 0 {
        Seq::empty()
    } else {
        rows_text(rows.drop_last()) + spans_text(rows.last().spans)
    }
}

/// The text of pieces, one after the other.
pub open spec fn pieces_text(pieces: Seq<PieceView>, n: nat) -> Seq<char>
    decreases n,
{
    if n == 0 {
        Seq::empty()
    } else {
        pieces_text(pieces, (n - 1) as nat) + pieces[n - 1].text
    }
}

/// A row is no wider than the room there is, unless all there is on it is one character.
pub open spec fn row_fits(spans: Seq<SpanView>, room: nat) -> bool {
    columns(spans_text(spans)) <= room || spans_text(spans).len() == 1
}

proof fn lemma_with_glyph(runs: Seq<RunView>, c: char, style: Style, link: Option<Seq<char>>)
    ensures
        spans_text(spans_of(with_glyph(runs, c, style, link))) == spans_text(spans_of(runs)).push(
            c,
        ),
{
    let more = with_glyph(runs, c, style, link);
    let (old_spans, spans) = (spans_of(runs), spans_of(more));
    if runs.len() > 0 && runs.last().style == style && runs.last().link == link {
        assert(spans.drop_last() =~= old_spans.drop_last());
        assert(spans.last().text == old_spans.last().text.push(c));
    } else {
        assert(spans.drop_last() =~= old_spans);
        assert(spans.last().text == seq![c]);
    }
    assert(spans_text(spans) =~= spans_text(old_spans).push(c));
}

impl Filling {
    /// The text of the rows and of the row being filled.
    spec fn text(self) -> Seq<char> {
        rows_text(self.rows) + spans_text(spans_of(self.runs))
    }

    spec fn row(self) -> Seq<char> {
        spans_text(spans_of(self.runs))
    }

    spec fn good(self, room: nat) -> bool {
        &&& self.width == columns(self.row())
        &&& self.row().len() > 1 ==> self.width <= room
        &&& self.runs.len() == 0 <==> self.row().len() == 0
        &&& forall|k: int| 0 <= k < self.rows.len() ==> row_fits(
            (#[trigger] self.rows[k]).spans,
            room,
        )
    }

    proof fn lemma_broken(self, line: usize, room: nat)
        requires
            self.good(room),
            self.runs.len() > 0,
        ensures
            self.broken(line).good(room),
            self.broken(line).text() == self.text(),
    {
        let next = self.broken(line);
        assert(next.rows.drop_last() =~= self.rows);
        assert(spans_of(next.runs) =~= Seq::empty());
        assert(next.text() =~= self.text());
        assert forall|k: int| 0 <= k < next.rows.len() implies row_fits(
            (#[trigger] next.rows[k]).spans,
            room,
        ) by {
            if k < self.rows.len() {
                assert(next.rows[k] == self.rows[k]);
            }
        }
    }

    proof fn lemma_with_char(
        self,
        glyph: Glyph,
        pieces: Seq<PieceView>,
        line: usize,
        room: nat,
    )
        requires
            self.good(room),
        ensures
            self.with_char(glyph, pieces, line, room).good(room),
            self.with_char(glyph, pieces, line, room).text() == self.text().push(glyph.c),
    {
        let n = glyph_columns(glyph.c);
        let row = if self.runs.len() > 0 && self.width + n > room {
            self.lemma_broken(line, room);
            self.broken(line)
        } else {
            self
        };
        let piece = pieces[glyph.piece as int];
        let next = self.with_char(glyph, pieces, line, room);
        lemma_with_glyph(row.runs, glyph.c, piece.style, piece.link);
        lemma_columns_push(row.row(), glyph.c);
        assert(next.row() == row.row().push(glyph.c));
        assert(next.text() =~= row.text().push(glyph.c));
    }

    proof fn lemma_with_chars(
        self,
        glyphs: Seq<Glyph>,
        k: int,
        end: int,
        pieces: Seq<PieceView>,
        line: usize,
        room: nat,
    )
        requires
            self.good(room),
            0 <= k <= end <= glyphs.len(),
        ensures
            self.with_chars(glyphs, k, end, pieces, line, room).good(room),
            self.with_chars(glyphs, k, end, pieces, line, room).text() == self.text() + letters(
                glyphs.subrange(k, end),
            ),
        decreases end - k,
    {
        if k < end {
            let next = self.with_char(glyphs[k], pieces, line, room);
            self.lemma_with_char(glyphs[k], pieces, line, room);
            next.lemma_with_chars(glyphs, k + 1, end, pieces, line, room);
            assert(self.text().push(glyphs[k].c) + letters(glyphs.subrange(k + 1, end))
                =~= self.text() + letters(glyphs.subrange(k, end)));
        } else {
            assert(self.text() + letters(glyphs.subrange(k, end)) =~= self.text());
        }
    }

    proof fn lemma_with_word(
        self,
        glyphs: Seq<Glyph>,
        start: int,
        end: int,
        pieces: Seq<PieceView>,
        room: nat,
        plain: Style,
    )
        requires
            self.good(room),
            0 <= start < end <= glyphs.len(),
            glyph_columns(' ') == 1,
        ensures
            self.with_word(glyphs, start, end, pieces, room, plain).good(room),
            ink(self.with_word(glyphs, start, end, pieces, room, plain).text()) == ink(self.text())
                + ink(letters(glyphs.subrange(start, end))),
    {
        let first = pieces[glyphs[start].piece as int];
        let word = letters(glyphs.subrange(start, end));
        let row = if self.runs.len() > 0 && self.width + 1 + glyphs_columns(glyphs, start, end)
            > room {
            self.lemma_broken(first.line, room);
            self.broken(first.line)
        } else {
            self
        };
        if row.runs.len() == 0 {
            let next = Filling { line: first.line, ..row };
            assert(next.good(room));
            next.lemma_with_chars(glyphs, start, end, pieces, first.line, room);
            lemma_ink_joined(next.text(), word);
        } else {
            let before = row.runs.last();
            let space = RunView {
                text: seq![' '],
                style: if before.style == first.style {
                    before.style
                } else {
                    plain
                },
                link: if before.link == first.link {
                    before.link
                } else {
                    None
                },
            };
            let next = Filling { runs: row.runs.push(space), width: row.width + 1, ..row };
            assert(spans_of(next.runs).drop_last() =~= spans_of(row.runs));
            assert(spans_of(next.runs).last() == span_of(space));
            assert(next.row() =~= row.row().push(' '));
            lemma_columns_push(row.row(), ' ');
            assert(next.good(room));
            assert(next.text() =~= row.text() + seq![' ']);
            lemma_ink_joined(row.text(), seq![' ']);
            lemma_ink_one(' ');
            assert(ink(row.text()) + Seq::<char>::empty() =~= ink(row.text()));
            next.lemma_with_chars(glyphs, start, end, pieces, first.line, room);
            lemma_ink_joined(next.text(), word);
        }
    }

    proof fn lemma_with_words(
        self,
        glyphs: Seq<Glyph>,
        i: int,
        pieces: Seq<PieceView>,
        room: nat,
        plain: Style,
    )
        requires
            self.good(room),
            0 <= i <= glyphs.len(),
            glyph_columns(' ') == 1,
        ensures
            self.with_words(glyphs, i, pieces, room, plain).good(room),
            ink(self.with_words(glyphs, i, pieces, room, plain).text()) == ink(self.text()) + ink(
                letters(glyphs.subrange(i, glyphs.len() as int)),
            ),
        decreases glyphs.len() - i,
    {
        lemma_word(glyphs, i);
        let start = word_start(glyphs, i);
        let end = word_end(glyphs, start);
        let all = letters(glyphs.subrange(i, glyphs.len() as int));
        let gap = letters(glyphs.subrange(i, start));
        lemma_word_gap(glyphs, i);
        lemma_ink_blank(gap);
        let rest = letters(glyphs.subrange(start, glyphs.len() as int));
        assert(all =~= gap + rest);
        lemma_ink_joined(gap, rest);
        assert(Seq::<char>::empty() + ink(rest) =~= ink(rest));
        if start >= glyphs.len() {
            assert(rest =~= Seq::<char>::empty());
            assert(ink(self.text()) + Seq::<char>::empty() =~= ink(self.text()));
        } else {
            let word = letters(glyphs.subrange(start, end));
            let more = letters(glyphs.subrange(end, glyphs.len() as int));
            assert(rest =~= word + more);
            lemma_ink_joined(word, more);
            let next = self.with_word(glyphs, start, end, pieces, room, plain);
            self.lemma_with_word(glyphs, start, end, pieces, room, plain);
            next.lemma_with_words(glyphs, end, pieces, room, plain);
            assert(ink(self.text()) + ink(word) + ink(more) =~= ink(self.text()) + (ink(word) + ink(
                more,
            )));
        }
    }
}

/// The characters of glyphs.
pub open spec fn letters(glyphs: Seq<Glyph>) -> Seq<char> {
    glyphs.map_values(|glyph: Glyph| glyph.c)
}

proof fn lemma_word_gap(glyphs: Seq<Glyph>, i: int)
    requires
        0 <= i <= glyphs.len(),
    ensures
        blank(letters(glyphs.subrange(i, word_start(glyphs, i)))),
    decreases glyphs.len() - i,
{
    lemma_word_start(glyphs, i);
    if i < glyphs.len() && is_space(glyphs[i].c) {
        lemma_word_gap(glyphs, i + 1);
        lemma_word_start(glyphs, i + 1);
        let end = word_start(glyphs, i);
        let gap = letters(glyphs.subrange(i, end));
        assert forall|k: int| 0 <= k < gap.len() implies is_space(#[trigger] gap[k]) by {
            if k > 0 {
                assert(gap[k] == letters(glyphs.subrange(i + 1, end))[k - 1]);
            }
        }
    }
}

proof fn lemma_glyph_letters(pieces: Seq<PieceView>, n: nat)
    requires
        n <= pieces.len(),
    ensures
        letters(glyphs(pieces, n)) == pieces_text(pieces, n),
    decreases n,
{
    if n > 0 {
        lemma_glyph_letters(pieces, (n - 1) as nat);
        assert(letters(glyphs(pieces, n)) =~= letters(glyphs(pieces, (n - 1) as nat))
            + pieces[n - 1].text);
    } else {
        assert(letters(glyphs(pieces, n)) =~= Seq::empty());
    }
}

proof fn lemma_wrapped(pieces: Seq<PieceView>, room: nat, plain: Style)
    requires
        glyph_columns(' ') == 1,
    ensures
        forall|k: int|
            0 <= k < wrapped(pieces, room, plain).len() ==> row_fits(
                #[trigger] wrapped(pieces, room, plain)[k].spans,
                room,
            ),
        ink(rows_text(wrapped(pieces, room, plain))) == ink(pieces_text(pieces, pieces.len())),
{
    let all = glyphs(pieces, pieces.len());
    let none = Filling { rows: Seq::empty(), runs: Seq::empty(), width: 0, line: 0 };
    assert(spans_of(none.runs) =~= Seq::empty());
    assert(none.text() =~= Seq::empty());
    none.lemma_with_words(all, 0, pieces, room, plain);
    let last = none.with_words(all, 0, pieces, room, plain);
    lemma_glyph_letters(pieces, pieces.len());
    assert(all.subrange(0, all.len() as int) =~= all);
    assert(ink(Seq::<char>::empty()) + ink(letters(all)) =~= ink(letters(all)));
    let rows = wrapped(pieces, room, plain);
    if last.runs.len() > 0 {
        last.lemma_broken(0, room);
        assert(rows =~= last.broken(0).rows);
        assert(spans_of(last.broken(0).runs) =~= Seq::empty());
        assert(rows_text(rows) =~= last.broken(0).text());
    } else {
        assert(spans_of(last.runs) =~= Seq::empty());
        assert(rows_text(rows) =~= last.text());
    }
}

/// No row is wider than the room there is, but for a single character that is.
pub proof fn rows_fit_the_room(pieces: Seq<PieceView>, room: nat, plain: Style)
    requires
        glyph_columns(' ') == 1,
    ensures
        forall|k: int|
            0 <= k < wrapped(pieces, room, plain).len() ==> row_fits(
                #[trigger] wrapped(pieces, room, plain)[k].spans,
                room,
            ),
{
    lemma_wrapped(pieces, room, plain);
}

/// Wrapping loses no text and changes none: all that differs is the white space.
pub proof fn wrapping_keeps_the_text(pieces: Seq<PieceView>, room: nat, plain: Style)
    requires
        glyph_columns(' ') == 1,
    ensures
        ink(rows_text(wrapped(pieces, room, plain))) == ink(pieces_text(pieces, pieces.len())),
{
    lemma_wrapped(pieces, room, plain);
}

} // verus!
