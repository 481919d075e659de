//! The panel a Markdown file is drawn in beside itself: what it shows of the rows, and what
//! the keys and the mouse do to it.

use crate::graphics::{less, max, min, Rect};
use crate::input::{KeyCode, KeyEvent, KeyModifiers, MouseButton, MouseEvent, MouseEventKind};
use crate::markdown::sheet::{Row, RowView};
use crate::markdown::wrap::{spans_text, Link, LinkView};
use crate::text::{append, append_str, blank, chars, find, first, is_blank, same_str, string,
    trim_end, trimmed_end};
use crate::width::{capped, columns, columns_are_at_most_two_each, glyph_columns, glyph_width,
    lemma_columns_joined, lemma_columns_push, text_width, width_of_text};
use vstd::prelude::*;
use vstd::slice::slice_subrange;

verus! {

/// Under this many columns a preview is not worth drawing, and the file being edited
/// keeps the room.
pub const MIN_WIDTH: u16 = 30;

/// The widest the text is drawn at when the preview has the whole screen: a line running
/// the width of a terminal is not a line anybody reads.
pub const READING_WIDTH: u16 = 90;

/// What the mouse selected: where the button went down and where the pointer is, as a row
/// of the panel and a column in it. The rows are the ones laid out, not the ones on
/// screen, so scrolling the panel or the file leaves the selection on the same words.
#[derive(Clone, Copy, Debug, PartialEq, Eq)]
pub struct PreviewSelection {
    pub anchor: (usize, usize),
    pub head: (usize, usize),
}

/// Whether one place of the text comes before another, or is it.
pub open spec fn no_later(a: (usize, usize), b: (usize, usize)) -> bool {
    a.0 < b.0 || (a.0 == b.0 && a.1 <= b.1)
}

impl PreviewSelection {
    pub open spec fn spec_ends(self) -> ((usize, usize), (usize, usize)) {
        if no_later(self.anchor, self.head) {
            (self.anchor, self.head)
        } else {
            (self.head, self.anchor)
        }
    }

    pub open spec fn spec_is_empty(self) -> bool {
        self.anchor == self.head
    }

    /// Its ends in reading order, whichever way it was drawn.
    pub fn ends(&self) -> (r: ((usize, usize), (usize, usize)))
        ensures
            r == self.spec_ends(),
            no_later(r.0, r.1),
    {
        let (row, column) = self.anchor;
        let (to_row, to_column) = self.head;
        if row < to_row || (row == to_row && column <= to_column) {
            (self.anchor, self.head)
        } else {
            (self.head, self.anchor)
        }
    }

    pub fn is_empty(&self) -> (r: bool)
        ensures
            r == self.spec_is_empty(),
    {
        self.anchor.0 == self.head.0 && self.anchor.1 == self.head.1
    }
}

/// The ends of a selection do not depend on the way it was drawn.
pub proof fn ends_are_the_same_either_way(a: (usize, usize), b: (usize, usize))
    ensures
        (PreviewSelection { anchor: a, head: b }).spec_ends() == (PreviewSelection {
            anchor: b,
            head: a,
        }).spec_ends(),
{
}

/// The rows last drawn, and what they were drawn from.
#[derive(Debug)]
pub struct Rendered {
    pub doc: usize,
    pub version: i32,
    pub width: u16,
    pub theme: String,
    pub rows: Vec<Row>,
}

/// A scroll the wheel gave the preview, good while the file's top line stays put.
#[derive(Clone, Copy, Debug, PartialEq, Eq, Structural)]
pub struct Scrolled {
    pub doc: usize,
    pub top_line: usize,
    pub offset: usize,
}

/// An edit the preview is waiting out: the rows on screen are older than the file, and a
/// timer says when the file has been still for long enough to lay it out again.
#[derive(Clone, Copy, Debug, PartialEq, Eq, Structural)]
pub struct Rest {
    pub doc: usize,
    pub version: i32,
    pub settled: bool,
}

/// What the preview sees of the file that has the focus.
#[derive(Clone, Copy, Debug, PartialEq, Eq, Structural)]
pub struct Focused {
    pub doc: usize,
    /// The line at the top of its view.
    pub top_line: usize,
}

/// The focused Markdown file drawn beside it as it reads, reflowed to the panel's width.
/// It follows the file's scroll unless the mouse wheel moved it, and then only until the
/// file moves.
#[derive(Debug)]
pub struct MarkdownPreview {
    pub open: bool,
    /// Whether the preview has the screen to itself, the file behind it.
    pub full: bool,
    /// Where it was drawn last, empty while it is not on screen.
    pub area: Rect,
    /// The width the separator was dragged to, kept between sessions over half the screen.
    pub width: Option<u16>,
    /// Whether the separator is being dragged, so the mouse is the preview's wherever it
    /// goes.
    pub resizing: bool,
    /// Where the text was drawn last, so a click can be turned back into a row.
    pub content: Rect,
    pub rendered: Option<Rendered>,
    pub scrolled: Option<Scrolled>,
    pub rest: Option<Rest>,
    /// What the mouse drew over the text, if anything is drawn over.
    pub selection: Option<PreviewSelection>,
    /// Whether the mouse is drawing one, so the drag is the preview's wherever the pointer
    /// goes, as the separator's is.
    pub selecting: bool,
}

// ---------------------------------------------------------------------------------------
// Rows and columns
// ---------------------------------------------------------------------------------------

/// The furthest that `rows` rows can scroll and still fill `height`.
pub open spec fn furthest(rows: nat, height: u16) -> int {
    less(rows as int, height as int)
}

/// The line nearest to `line`, at it or above, that one of the first `n` rows starts on.
pub open spec fn block_line(rows: Seq<RowView>, n: nat, line: usize) -> Option<usize>
    decreases n,
{
    if n == 0 {
        None
    } else {
        let before = block_line(rows, (n - 1) as nat, line);
        let here = rows[n - 1].line;
        if here > line {
            before
        } else {
            match before {
                Some(best) if best > here => Some(best),
                _ => Some(here),
            }
        }
    }
}

/// The first row from `k` on that is not blank and starts on `line`; the first of all
/// where none does.
pub open spec fn row_at(rows: Seq<RowView>, k: int, line: usize) -> int
    decreases rows.len() - k,
{
    if k >= rows.len() {
        0
    } else if rows[k].line == line && !rows[k].blank {
        k
    } else {
        row_at(rows, k + 1, line)
    }
}

/// The first row drawn from the block `line` belongs to.
pub open spec fn row_of_line(rows: Seq<RowView>, line: usize) -> int {
    match block_line(rows, rows.len(), line) {
        Some(start) => row_at(rows, 0, start),
        None => 0,
    }
}

/// The part of a text from character `k` on, which is drawn at `column`, that lies between
/// two columns.
pub open spec fn between(text: Seq<char>, k: int, column: nat, from: usize, to: usize) -> Seq<char>
    decreases text.len() - k,
{
    if k >= text.len() || column >= to {
        Seq::empty()
    } else {
        let next = column + glyph_columns(text[k]);
        (if column >= from && next <= to {
            seq![text[k]]
        } else {
            Seq::empty()
        }) + between(text, k + 1, next, from, to)
    }
}

/// Whether a character of a text stands on both sides of a column.
pub open spec fn straddled(text: Seq<char>, column: int) -> bool {
    exists|i: int|
        0 <= i < text.len() && columns(#[trigger] text.take(i)) < column && column < columns(
            text.take(i),
        ) + glyph_columns(text[i])
}

proof fn lemma_columns_next(text: Seq<char>, k: int)
    requires
        0 <= k < text.len(),
    ensures
        columns(text.take(k + 1)) == columns(text.take(k)) + glyph_columns(text[k]),
{
    assert(text.take(k + 1) =~= text.take(k).push(text[k]));
    lemma_columns_push(text.take(k), text[k]);
}

proof fn lemma_between_from(
    text: Seq<char>,
    k: int,
    column: nat,
    from: usize,
    other: usize,
    to: usize,
)
    requires
        column >= from,
        column >= other,
    ensures
        between(text, k, column, from, to) == between(text, k, column, other, to),
    decreases text.len() - k,
{
    if k < text.len() && column < to {
        lemma_between_from(text, k + 1, column + glyph_columns(text[k]), from, other, to);
    }
}

proof fn lemma_cut_at(text: Seq<char>, k: int, from: usize, at: usize, to: usize)
    requires
        0 <= k <= text.len(),
        from <= at <= to,
        !straddled(text, at as int),
    ensures
        ({
            let column = columns(text.take(k));
            between(text, k, column, from, at) + between(text, k, column, at, to) == between(
                text,
                k,
                column,
                from,
                to,
            )
        }),
    decreases text.len() - k,
{
    let column = columns(text.take(k));
    let left = between(text, k, column, from, at);
    let right = between(text, k, column, at, to);
    if column >= at {
        lemma_between_from(text, k, column, from, at, to);
        assert(left + right =~= right);
    } else if k < text.len() {
        lemma_columns_next(text, k);
        lemma_cut_at(text, k + 1, from, at, to);
        let next = columns(text.take(k + 1));
        assert(next <= at);
        assert(left + right =~= between(text, k, column, from, to));
    } else {
        assert(left + right =~= between(text, k, column, from, to));
    }
}

/// Two parts of a text that meet at a column no character stands on both sides of are,
/// together, the part from where the first begins to where the second ends.
pub proof fn parts_that_meet_are_one(text: Seq<char>, from: usize, at: usize, to: usize)
    requires
        from <= at <= to,
        !straddled(text, at as int),
    ensures
        between(text, 0, 0, from, at) + between(text, 0, 0, at, to) == between(
            text,
            0,
            0,
            from,
            to,
        ),
{
    assert(text.take(0).len() == 0);
    lemma_cut_at(text, 0, from, at, to);
}

proof fn lemma_whole(text: Seq<char>, k: int, to: usize)
    requires
        0 <= k <= text.len(),
        columns(text) < to,
    ensures
        between(text, k, columns(text.take(k)), 0, to) == text.skip(k),
    decreases text.len() - k,
{
    assert(text.take(k) + text.skip(k) =~= text);
    lemma_columns_joined(text.take(k), text.skip(k));
    if k < text.len() {
        lemma_columns_next(text, k);
        lemma_whole(text, k + 1, to);
        assert(text.take(k + 1) + text.skip(k + 1) =~= text);
        lemma_columns_joined(text.take(k + 1), text.skip(k + 1));
        assert(seq![text[k]] + text.skip(k + 1) =~= text.skip(k));
    }
}

/// The part of a text from its first column to one behind its last is the text.
pub proof fn all_columns_are_the_text(text: Seq<char>, to: usize)
    requires
        columns(text) < to,
    ensures
        between(text, 0, 0, 0, to) == text,
{
    assert(text.take(0).len() == 0);
    lemma_whole(text, 0, to);
    assert(text.skip(0) =~= text);
}

/// A wide character half outside is left out.
pub proof fn a_character_half_outside_is_left_out(a: char, wide: char, b: char)
    requires
        glyph_columns(a) == 1,
        glyph_columns(wide) == 2,
        glyph_columns(b) == 1,
    ensures
        between(seq![a, wide, b], 0, 0, 0, 2) == seq![a],
        between(seq![a, wide, b], 0, 0, 2, 4) == seq![b],
{
    reveal_with_fuel(between, 4);
    let text = seq![a, wide, b];
    assert(between(text, 0, 0, 0, 2) =~= seq![a]);
    assert(between(text, 0, 0, 2, 4) =~= seq![b]);
}

/// All the columns there are take all of a text, as long as its columns can be counted.
pub proof fn the_widest_part_is_the_text(text: Seq<char>)
    requires
        2 * text.len() < usize::MAX,
    ensures
        between(text, 0, 0, 0, usize::MAX) == text,
{
    columns_are_at_most_two_each(text);
    all_columns_are_the_text(text, usize::MAX);
}

/// A Han ideograph between two letters is left out of a part that ends in its middle, and of
/// one that begins there.
pub proof fn an_ideograph_half_outside_is_left_out(a: char, wide: char, b: char)
    requires
        ' ' <= a <= '~',
        '\u{4e00}' <= wide <= '\u{9fff}',
        ' ' <= b <= '~',
    ensures
        between(seq![a, wide, b], 0, 0, 0, 2) == seq![a],
        between(seq![a, wide, b], 0, 0, 2, 4) == seq![b],
{
    a_character_half_outside_is_left_out(a, wide, b);
}

pub fn row_for_line(rows: &Vec<Row>, line: usize) -> (r: usize)
    ensures
        r == row_of_line(rows.deep_view(), line),
        r < rows@.len() || r == 0,
{
    let ghost all = rows.deep_view();
    let mut target: Option<usize> = None;
    let mut n: usize = 0;
    while n < rows.len()
        invariant
            n <= rows@.len(),
            all == rows.deep_view(),
            target == block_line(all, n as nat, line),
        decreases rows@.len() - n,
    {
        let here: usize = rows[n].line;
        proof {
            assert(all[n as int] == rows@[n as int].deep_view());
        }
        if here <= line {
            target = match target {
                Some(best) => if best > here {
                    Some(best)
                } else {
                    Some(here)
                },
                None => Some(here),
            };
        }
        n = n + 1;
    }
    if let Some(start) = target {
        let mut k: usize = 0;
        while k < rows.len()
            invariant
                k <= rows@.len(),
                all == rows.deep_view(),
                block_line(all, all.len(), line) == Some(start),
                row_at(all, 0, start) == row_at(all, k as int, start),
            decreases rows@.len() - k,
        {
            proof {
                assert(all[k as int] == rows@[k as int].deep_view());
            }
            if rows[k].line == start && !rows[k].blank {
                return k;
            }
            k = k + 1;
        }
    }
    0
}

/// The part of `text` that is drawn between two columns.
pub fn slice_columns(text: &[char], from: usize, to: usize) -> (r: Vec<char>)
    ensures
        r@ == between(text@, 0, 0, from, to),
{
    let ghost whole = between(text@, 0, 0, from, to);
    let mut cut: Vec<char> = Vec::new();
    let mut column: usize = 0;
    let mut k: usize = 0;
    proof {
        assert(cut@ + whole =~= whole);
    }
    while k < text.len() && column < to
        invariant
            k <= text@.len(),
            whole == cut@ + between(text@, k as int, column as nat, from, to),
        decreases text@.len() - k,
    {
        let ghost before = cut@;
        let ghost rest = between(text@, k as int, column as nat, from, to);
        let n: usize = glyph_width(text[k]);
        if column >= from && n <= to - column {
            cut.push(text[k]);
        }
        proof {
            let next = column + n;
            assert(cut@ + between(text@, k + 1, next as nat, from, to) =~= before + rest);
            if next > usize::MAX {
                assert(between(text@, k + 1, next as nat, from, to) == Seq::<char>::empty());
                assert(between(text@, k + 1, usize::MAX as nat, from, to) == Seq::<char>::empty());
            }
        }
        column = column.saturating_add(n);
        k = k + 1;
    }
    proof {
        assert(cut@ + Seq::<char>::empty() =~= cut@);
    }
    cut
}

/// The text of a row, without the styles it is drawn with.
pub fn row_text(row: &Row) -> (r: Vec<char>)
    ensures
        r@ == spans_text(row.deep_view().spans),
{
    let ghost all = row.spans.deep_view();
    let mut text: Vec<char> = Vec::new();
    let mut n: usize = 0;
    proof {
        assert(all.take(0) =~= Seq::empty());
    }
    while n < row.spans.len()
        invariant
            n <= row.spans@.len(),
            all == row.spans.deep_view(),
            text@ == spans_text(all.take(n as int)),
        decreases row.spans@.len() - n,
    {
        append_str(&mut text, row.spans[n].text.as_str());
        proof {
            assert(all.take(n + 1).drop_last() =~= all.take(n as int));
            assert(all[n as int] == row.spans@[n as int].deep_view());
        }
        n = n + 1;
    }
    proof {
        assert(all.take(n as int) =~= all);
    }
    text
}

/// The columns the first `n` spans of a row take.
pub open spec fn row_columns(row: RowView, n: nat) -> nat
    decreases n,
{
    if n == 0 {
        0
    } else {
        row_columns(row, (n - 1) as nat) + width_of_text(row.spans[n - 1].text) as nat
    }
}

/// The columns a row takes, which stop at the largest number there is.
pub fn row_width(row: &Row) -> (r: usize)
    ensures
        r == capped(row_columns(row.deep_view(), row.spans@.len()) as int),
{
    let ghost all = row.deep_view();
    let mut sum: usize = 0;
    let mut n: usize = 0;
    while n < row.spans.len()
        invariant
            n <= row.spans@.len(),
            all == row.deep_view(),
            sum == capped(row_columns(all, n as nat) as int),
        decreases row.spans@.len() - n,
    {
        proof {
            assert(all.spans[n as int] == row.spans@[n as int].deep_view());
        }
        sum = sum.saturating_add(text_width(row.spans[n].text.as_str()));
        n = n + 1;
    }
    sum
}

// ---------------------------------------------------------------------------------------
// The panel
// ---------------------------------------------------------------------------------------

impl MarkdownPreview {
    /// The rows laid out last.
    pub open spec fn rows(self) -> Seq<RowView> {
        match self.rendered {
            Some(rendered) => rendered.rows.deep_view(),
            None => Seq::empty(),
        }
    }

    /// Where it is drawn lies on the screen.
    pub open spec fn wf(self) -> bool {
        self.area.fits() && self.content.fits()
    }

    /// The first row on screen: the wheel's while the file has not moved, otherwise the
    /// row drawn from the file's top line.
    pub open spec fn first_row(self, sees: Focused) -> int {
        if self.rendered is None {
            0
        } else {
            min(
                match self.scrolled {
                    Some(scrolled) if scrolled.doc == sees.doc && scrolled.top_line
                        == sees.top_line => scrolled.offset as int,
                    _ => row_of_line(self.rows(), sees.top_line),
                },
                furthest(self.rows().len(), self.area.height),
            )
        }
    }

    /// The panel with nothing drawn yet, its width as it was remembered.
    pub fn new(width: Option<u16>) -> (r: MarkdownPreview)
        ensures
            r == (MarkdownPreview {
                open: false,
                full: false,
                area: Rect { x: 0, y: 0, width: 0, height: 0 },
                width,
                resizing: false,
                content: Rect { x: 0, y: 0, width: 0, height: 0 },
                rendered: None,
                scrolled: None,
                rest: None,
                selection: None,
                selecting: false,
            }),
            r.wf(),
    {
        MarkdownPreview {
            open: false,
            full: false,
            area: Rect::new(0, 0, 0, 0),
            width,
            resizing: false,
            content: Rect::new(0, 0, 0, 0),
            rendered: None,
            scrolled: None,
            rest: None,
            selection: None,
            selecting: false,
        }
    }

    /// The panel shown or hidden beside the file, and whether it could be.
    pub open spec fn toggled(self, markdown: bool) -> (MarkdownPreview, bool) {
        if self.open {
            (MarkdownPreview { open: false, ..self }, true)
        } else if markdown {
            (MarkdownPreview { open: true, scrolled: None, ..self }, true)
        } else {
            (self, false)
        }
    }

    /// The panel shown or hidden on its own, and whether it could be.
    pub open spec fn toggled_full(self, markdown: bool) -> (MarkdownPreview, bool) {
        if self.full {
            (MarkdownPreview { full: false, ..self }, true)
        } else if markdown {
            (MarkdownPreview { full: true, scrolled: None, ..self }, true)
        } else {
            (self, false)
        }
    }

    /// The columns the preview takes.
    pub open spec fn taken(self, markdown: bool, area: Rect, editor_room: u16) -> int {
        let wanted = match self.width {
            Some(width) => width as int,
            None => area.width as int / 2,
        };
        let width = min(wanted, less(area.width as int, editor_room as int));
        if self.open && markdown && width >= MIN_WIDTH {
            width
        } else {
            0
        }
    }

    /// Shows or hides the preview beside the file. Answers whether it could: it is for
    /// Markdown files.
    pub fn toggle(&mut self, markdown: bool) -> (r: Result<(), String>)
        ensures
            (*final(self), r is Ok) == old(self).toggled(markdown),
            r matches Err(words) ==> words@ == "The preview is for Markdown files"@,
    {
        if self.open {
            self.open = false;
            return Ok(());
        }
        if !markdown {
            return Err("The preview is for Markdown files".to_string());
        }
        self.open = true;
        self.scrolled = None;
        Ok(())
    }

    /// Shows or hides the preview on its own, filling the screen.
    pub fn toggle_full(&mut self, markdown: bool) -> (r: Result<(), String>)
        ensures
            (*final(self), r is Ok) == old(self).toggled_full(markdown),
            r matches Err(words) ==> words@ == "The preview is for Markdown files"@,
    {
        if self.full {
            self.full = false;
            return Ok(());
        }
        if !markdown {
            return Err("The preview is for Markdown files".to_string());
        }
        self.full = true;
        self.scrolled = None;
        Ok(())
    }

    /// Whether the preview is the one thing on screen. The editor moving to a file that
    /// is not Markdown closes it: there is nothing left to draw.
    pub fn is_full(&mut self, markdown: bool) -> (r: bool)
        ensures
            r == (old(self).full && markdown),
            *final(self) == (MarkdownPreview { full: r, ..*old(self) }),
    {
        if self.full && !markdown {
            self.full = false;
        }
        self.full
    }

    /// The columns the preview takes from the right of `area`, which leaves `editor_room`
    /// to the file: none while it is closed, the focused file is not Markdown, or what is
    /// left would not be worth drawing.
    pub fn width(&self, markdown: bool, area: Rect, editor_room: u16) -> (r: u16)
        ensures
            r == self.taken(markdown, area, editor_room),
    {
        if !self.open || !markdown {
            return 0;
        }
        let wanted: u16 = match self.width {
            Some(width) => width,
            None => area.width / 2,
        };
        let most: u16 = area.width.saturating_sub(editor_room);
        let width: u16 = if wanted < most {
            wanted
        } else {
            most
        };
        if width < MIN_WIDTH {
            0
        } else {
            width
        }
    }

    /// Whether the separator is being dragged: the mouse is the preview's until it is let
    /// go, wherever it has gone.
    pub fn resizing(&self) -> (r: bool)
        ensures
            r == self.resizing,
    {
        self.resizing
    }

    /// Whether the mouse is drawing a selection over the text: the drag stays the
    /// preview's when the pointer leaves it, so it can be grown past the panel's edge.
    pub fn selecting(&self) -> (r: bool)
        ensures
            r == self.selecting,
    {
        self.selecting
    }

    pub open spec fn spec_has_selection(self) -> bool {
        match self.selection {
            Some(selection) => !selection.spec_is_empty(),
            None => false,
        }
    }

    /// Whether anything in the panel is selected, and so is what Copy copies.
    pub fn has_selection(&self) -> (r: bool)
        ensures
            r == self.spec_has_selection(),
    {
        match self.selection {
            Some(selection) => !selection.is_empty(),
            None => false,
        }
    }

    /// Nothing is selected any more. Answers whether anything was: the screen only needs
    /// drawing again if something was highlighted.
    pub fn clear_selection(&mut self) -> (r: bool)
        ensures
            r == (old(self).selection is Some),
            *final(self) == (MarkdownPreview { selecting: false, selection: None, ..*old(self) }),
    {
        self.selecting = false;
        let was: bool = self.selection.is_some();
        self.selection = None;
        was
    }

    /// Off the screen: the mouse no longer lands on it.
    pub fn leave_screen(&mut self)
        ensures
            *final(self) == (MarkdownPreview {
                area: Rect { x: 0, y: 0, width: 0, height: 0 },
                ..*old(self)
            }),
    {
        self.area = Rect::new(0, 0, 0, 0);
    }

    pub fn contains(&self, row: u16, column: u16) -> (r: bool)
        ensures
            r == self.area.holds(row as int, column as int),
    {
        self.area.contains(row, column)
    }

    fn offset(&self, sees: Focused) -> (r: usize)
        ensures
            r == self.first_row(sees),
    {
        let rows: &Vec<Row> = match &self.rendered {
            Some(rendered) => &rendered.rows,
            None => {
                return 0;
            },
        };
        let offset: usize = match self.scrolled {
            Some(scrolled) => if scrolled.doc == sees.doc && scrolled.top_line == sees.top_line {
                scrolled.offset
            } else {
                row_for_line(rows, sees.top_line)
            },
            None => row_for_line(rows, sees.top_line),
        };
        let last: usize = rows.len().saturating_sub(self.area.height as usize);
        if offset < last {
            offset
        } else {
            last
        }
    }

    /// The panel scrolled by `delta` rows, as far as there are rows to show.
    pub open spec fn scrolled_by(self, sees: Focused, delta: int) -> MarkdownPreview {
        if self.rendered is None {
            self
        } else {
            MarkdownPreview {
                scrolled: Some(
                    Scrolled {
                        doc: sees.doc,
                        top_line: sees.top_line,
                        offset: min(
                            max(self.first_row(sees) + delta, 0),
                            furthest(self.rows().len(), self.area.height),
                        ) as usize,
                    },
                ),
                ..self
            }
        }
    }

    pub fn scroll_by(&mut self, sees: Focused, delta: isize)
        ensures
            *final(self) == old(self).scrolled_by(sees, delta as int),
    {
        let offset: usize = self.offset(sees);
        let rows: usize = match &self.rendered {
            Some(rendered) => rendered.rows.len(),
            None => {
                return ;
            },
        };
        let last: usize = rows.saturating_sub(self.area.height as usize);
        let moved: usize = if delta >= 0 {
            offset.saturating_add(delta as usize)
        } else {
            offset.saturating_sub((-(delta + 1)) as usize).saturating_sub(1)
        };
        let offset: usize = if moved < last {
            moved
        } else {
            last
        };
        self.scrolled = Some(Scrolled { doc: sees.doc, top_line: sees.top_line, offset });
    }

    /// The row and column of the text under the pointer, clamped to the panel: the pointer
    /// above it counts as the first row drawn and below it as the last, so a drag that
    /// leaves the panel keeps growing the selection.
    pub open spec fn place(self, sees: Focused, row: u16, column: u16) -> Option<(usize, usize)> {
        if self.rendered is None || self.rows().len() == 0 || self.content.height == 0
            || self.content.width == 0 {
            None
        } else {
            let on_row = min(
                max(row as int, self.content.y as int),
                self.content.y + self.content.height - 1,
            );
            let index = min(
                self.first_row(sees) + (on_row - self.content.y),
                self.rows().len() - 1,
            );
            let at = min(
                less(column as int, self.content.x as int),
                self.content.width as int,
            );
            Some((index as usize, at as usize))
        }
    }

    fn position_at(&self, sees: Focused, row: u16, column: u16) -> (r: Option<(usize, usize)>)
        requires
            self.wf(),
        ensures
            r == self.place(sees, row, column),
    {
        let rows: usize = match &self.rendered {
            Some(rendered) => rendered.rows.len(),
            None => {
                return None;
            },
        };
        if rows == 0 || self.content.height == 0 || self.content.width == 0 {
            return None;
        }
        let offset: usize = self.offset(sees);
        let bottom: u16 = self.content.y + (self.content.height - 1);
        let on_row: u16 = if row < self.content.y {
            self.content.y
        } else if row > bottom {
            bottom
        } else {
            row
        };
        let index: usize = offset.saturating_add((on_row - self.content.y) as usize);
        let index: usize = if index < rows - 1 {
            index
        } else {
            rows - 1
        };
        let at: u16 = column.saturating_sub(self.content.x);
        let at: u16 = if at < self.content.width {
            at
        } else {
            self.content.width
        };
        Some((index, at as usize))
    }

    /// Where the link drawn under the pointer goes, if one is.
    pub open spec fn link_under(self, sees: Focused, row: u16, column: u16) -> Option<Seq<char>> {
        if self.rendered is None || row < self.content.y || row >= self.content.spec_bottom()
            || column < self.content.x {
            None
        } else {
            let index = self.first_row(sees) + (row - self.content.y);
            if index >= self.rows().len() {
                None
            } else {
                link_covering(self.rows()[index].links, 0, column - self.content.x)
            }
        }
    }

    fn link_at(&self, sees: Focused, row: u16, column: u16) -> (r: Option<String>)
        ensures
            r.deep_view() == self.link_under(sees, row, column),
    {
        let rendered: &Rendered = match &self.rendered {
            Some(rendered) => rendered,
            None => {
                return None;
            },
        };
        if row < self.content.y || row >= self.content.bottom() || column < self.content.x {
            return None;
        }
        let offset: usize = self.offset(sees);
        let index: usize = offset.saturating_add((row - self.content.y) as usize);
        if index >= rendered.rows.len() {
            return None;
        }
        proof {
            assert(self.rows()[index as int] == rendered.rows@[index as int].deep_view());
        }
        find_link(&rendered.rows[index].links, (column - self.content.x) as usize)
    }
}

/// Where the first link from `k` on goes that covers column `at`.
pub open spec fn link_covering(links: Seq<LinkView>, k: int, at: int) -> Option<Seq<char>>
    decreases links.len() - k,
{
    if k >= links.len() {
        None
    } else if links[k].from <= at && at < links[k].to {
        Some(links[k].target)
    } else {
        link_covering(links, k + 1, at)
    }
}

fn find_link(links: &Vec<Link>, at: usize) -> (r: Option<String>)
    ensures
        r.deep_view() == link_covering(links.deep_view(), 0, at as int),
{
    let ghost all = links.deep_view();
    let mut k: usize = 0;
    while k < links.len()
        invariant
            k <= links@.len(),
            all == links.deep_view(),
            link_covering(all, 0, at as int) == link_covering(all, k as int, at as int),
        decreases links@.len() - k,
    {
        proof {
            assert(all[k as int] == links@[k as int].deep_view());
        }
        if links[k].from <= at && at < links[k].to {
            return Some(links[k].target.clone());
        }
        k = k + 1;
    }
    None
}

// ---------------------------------------------------------------------------------------
// What is selected
// ---------------------------------------------------------------------------------------

/// The columns of row `index` between two places of the text: a row between them is taken
/// whole.
pub open spec fn row_part(
    text: Seq<char>,
    index: int,
    from: (usize, usize),
    to: (usize, usize),
) -> Seq<char> {
    trimmed_end(
        between(
            text,
            0,
            0,
            if index == from.0 {
                from.1
            } else {
                0
            },
            if index == to.0 {
                to.1
            } else {
                usize::MAX
            },
        ),
    )
}

/// The rows from `index` up to `last`, cut at two places of the text, a line each.
pub open spec fn lines_between(
    rows: Seq<RowView>,
    index: int,
    last: int,
    from: (usize, usize),
    to: (usize, usize),
) -> Seq<char>
    decreases last + 1 - index,
{
    if index > last {
        Seq::empty()
    } else {
        (if index != from.0 {
            seq!['\n']
        } else {
            Seq::empty()
        }) + row_part(spans_text(rows[index].spans), index, from, to) + lines_between(
            rows,
            index + 1,
            last,
            from,
            to,
        )
    }
}

impl MarkdownPreview {
    /// What is selected, as the plain text it was drawn from.
    pub open spec fn spec_selected_text(self) -> Option<Seq<char>> {
        if !self.spec_has_selection() || self.rows().len() == 0 {
            None
        } else {
            let (from, to) = self.selection->0.spec_ends();
            let text = lines_between(
                self.rows(),
                from.0 as int,
                min(to.0 as int, self.rows().len() - 1),
                from,
                to,
            );
            if blank(text) {
                None
            } else {
                Some(text)
            }
        }
    }

    /// What is selected, as the plain text it was drawn from: the rows it runs over, cut
    /// at the columns it starts and ends on, without the blanks each row is padded with.
    pub fn selected_text(&self) -> (r: Option<String>)
        ensures
            r.deep_view() == self.spec_selected_text(),
    {
        let selection: PreviewSelection = match self.selection {
            Some(selection) => selection,
            None => {
                return None;
            },
        };
        if selection.is_empty() {
            return None;
        }
        let rows: &Vec<Row> = match &self.rendered {
            Some(rendered) => &rendered.rows,
            None => {
                return None;
            },
        };
        if rows.len() == 0 {
            return None;
        }
        let (from, to) = selection.ends();
        let last: usize = if to.0 < rows.len() - 1 {
            to.0
        } else {
            rows.len() - 1
        };
        let ghost all = self.rows();
        let ghost whole = lines_between(all, from.0 as int, last as int, from, to);
        let mut text: Vec<char> = Vec::new();
        let mut index: usize = from.0;
        proof {
            assert(text@ + whole =~= whole);
        }
        while index <= last
            invariant
                last < rows.len(),
                all == rows.deep_view(),
                whole == text@ + lines_between(all, index as int, last as int, from, to),
            decreases last + 1 - index,
        {
            let ghost before = text@;
            let ghost rest = lines_between(all, index as int, last as int, from, to);
            if index != from.0 {
                text.push('\n');
            }
            let line: Vec<char> = row_text(&rows[index]);
            let start: usize = if index == from.0 {
                from.1
            } else {
                0
            };
            let end: usize = if index == to.0 {
                to.1
            } else {
                usize::MAX
            };
            let part: Vec<char> = slice_columns(line.as_slice(), start, end);
            append(&mut text, trim_end(part.as_slice()));
            proof {
                assert(all[index as int] == rows@[index as int].deep_view());
                assert(text@ + lines_between(all, index + 1, last as int, from, to) =~= before
                    + rest);
            }
            index = index + 1;
        }
        proof {
            assert(text@ + Seq::<char>::empty() =~= text@);
        }
        if is_blank(text.as_slice()) {
            None
        } else {
            Some(string(text.as_slice()))
        }
    }
}

// ---------------------------------------------------------------------------------------
// Keys and the mouse
// ---------------------------------------------------------------------------------------

/// What is left to do outside once the preview has taken an event.
#[derive(Debug, PartialEq)]
pub enum PreviewTask {
    Nothing,
    /// Remember the width the separator was dragged to.
    SaveWidth(u16),
    /// Write the text that was selected to the register the mouse yanks to.
    Yank(String),
    /// Follow a link.
    Follow(String),
}

#[verifier::ext_equal]
pub enum PreviewTaskView {
    Nothing,
    SaveWidth(u16),
    Yank(Seq<char>),
    Follow(Seq<char>),
}

impl DeepView for PreviewTask {
    type V = PreviewTaskView;

    open spec fn deep_view(&self) -> PreviewTaskView {
        match self {
            PreviewTask::Nothing => PreviewTaskView::Nothing,
            PreviewTask::SaveWidth(width) => PreviewTaskView::SaveWidth(*width),
            PreviewTask::Yank(text) => PreviewTaskView::Yank(text@),
            PreviewTask::Follow(target) => PreviewTaskView::Follow(target@),
        }
    }
}

impl MarkdownPreview {
    /// The panel after a bare key: it scrolls, and Escape closes it; anything else is
    /// swallowed. `lines` is how far the wheel scrolls.
    pub open spec fn after_key(self, code: KeyCode, sees: Focused, lines: isize)
        -> MarkdownPreview {
        let page = less(self.area.height as int, 2);
        match code {
            KeyCode::Esc => MarkdownPreview { full: false, ..self },
            KeyCode::Down => self.scrolled_by(sees, 1),
            KeyCode::Up => self.scrolled_by(sees, -1),
            KeyCode::PageDown => self.scrolled_by(sees, page),
            KeyCode::PageUp => self.scrolled_by(sees, -page),
            KeyCode::Home => self.scrolled_by(sees, isize::MIN as int),
            KeyCode::End => self.scrolled_by(sees, isize::MAX as int),
            KeyCode::Char(c) => if c == ' ' {
                self.scrolled_by(sees, page)
            } else if c == 'j' {
                self.scrolled_by(sees, lines as int)
            } else if c == 'k' {
                self.scrolled_by(sees, -lines)
            } else {
                self
            },
            _ => self,
        }
    }

    /// A key while the preview has the screen. It scrolls, and Escape closes it; anything
    /// else bare is swallowed, since the file is not on screen for a command to act on and
    /// a blind edit is the one thing a reading surface must not allow. A key with a
    /// modifier is one of the editor's shortcuts and goes on to the keymap. Answers
    /// whether the key was taken.
    pub fn handle_key(&mut self, key: KeyEvent, sees: Focused, lines: isize) -> (r: bool)
        requires
            lines > isize::MIN,
        ensures
            r == key.modifiers.spec_is_empty(),
            r ==> *final(self) == old(self).after_key(key.code, sees, lines),
            !r ==> *final(self) == *old(self),
    {
        if !key.modifiers.is_empty() {
            return false;
        }
        let page: isize = self.area.height.saturating_sub(2) as isize;
        match key.code {
            KeyCode::Esc => {
                self.full = false;
            },
            KeyCode::Down => self.scroll_by(sees, 1),
            KeyCode::Up => self.scroll_by(sees, -1),
            KeyCode::PageDown => self.scroll_by(sees, page),
            KeyCode::PageUp => self.scroll_by(sees, -page),
            KeyCode::Home => self.scroll_by(sees, isize::MIN),
            KeyCode::End => self.scroll_by(sees, isize::MAX),
            KeyCode::Char(c) => {
                if c == ' ' {
                    self.scroll_by(sees, page);
                } else if c == 'j' {
                    self.scroll_by(sees, lines);
                } else if c == 'k' {
                    self.scroll_by(sees, -lines);
                }
            },
            _ => {},
        }
        true
    }

    /// The width a separator dragged to `column` asks for: what is right of it, but no less
    /// than is worth drawing, and no more than leaves the file its room.
    pub open spec fn dragged_width(self, column: u16, tree_width: u16, editor_room: u16) -> int {
        let most = max(
            less(self.area.width + tree_width, editor_room as int),
            MIN_WIDTH as int,
        );
        let wanted = less(self.area.spec_right() as int, column as int);
        min(max(wanted, MIN_WIDTH as int), most)
    }

    /// The panel after a press at a place of the text: a selection begins there, or the one
    /// already drawn is taken there where Shift is held.
    pub open spec fn pressed(self, place: (usize, usize), shift: bool) -> MarkdownPreview {
        MarkdownPreview {
            selection: Some(
                PreviewSelection {
                    anchor: if shift && self.selection is Some {
                        self.selection->0.anchor
                    } else {
                        place
                    },
                    head: place,
                },
            ),
            selecting: true,
            ..self
        }
    }

    /// What an event of the mouse over the preview does: the panel after it, whether it was
    /// taken, and what is left to do outside.
    pub open spec fn after_mouse(
        self,
        event: MouseEvent,
        sees: Focused,
        tree_width: u16,
        editor_room: u16,
        lines: isize,
    ) -> (MarkdownPreview, bool, PreviewTaskView) {
        let ignored = (self, false, PreviewTaskView::Nothing);
        match event.kind {
            MouseEventKind::Down(MouseButton::Left) => if !self.full && event.column
                == self.area.x {
                (MarkdownPreview { resizing: true, ..self }, true, PreviewTaskView::Nothing)
            } else {
                match self.place(sees, event.row, event.column) {
                    Some(place) => (
                        self.pressed(place, event.modifiers == KeyModifiers::spec_shift()),
                        true,
                        PreviewTaskView::Nothing,
                    ),
                    None => ignored,
                }
            },
            MouseEventKind::Drag(MouseButton::Left) => if self.resizing {
                (
                    MarkdownPreview {
                        width: Some(
                            self.dragged_width(event.column, tree_width, editor_room) as u16,
                        ),
                        ..self
                    },
                    true,
                    PreviewTaskView::Nothing,
                )
            } else if self.selecting {
                match (self.place(sees, event.row, event.column), self.selection) {
                    (Some(place), Some(selection)) => if selection.head == place {
                        ignored
                    } else {
                        (
                            MarkdownPreview {
                                selection: Some(PreviewSelection { head: place, ..selection }),
                                ..self
                            },
                            true,
                            PreviewTaskView::Nothing,
                        )
                    },
                    _ => ignored,
                }
            } else {
                ignored
            },
            MouseEventKind::Up(MouseButton::Left) => if self.resizing {
                (
                    MarkdownPreview { resizing: false, ..self },
                    true,
                    match self.width {
                        Some(width) => PreviewTaskView::SaveWidth(width),
                        None => PreviewTaskView::Nothing,
                    },
                )
            } else if self.selecting {
                let still = MarkdownPreview { selecting: false, ..self };
                // Down and up on the same spot is a click, and a click on a link follows it.
                if !self.spec_has_selection() {
                    (
                        MarkdownPreview { selection: None, ..still },
                        true,
                        match self.link_under(sees, event.row, event.column) {
                            Some(target) => PreviewTaskView::Follow(target),
                            None => PreviewTaskView::Nothing,
                        },
                    )
                } else {
                    (
                        still,
                        true,
                        match self.spec_selected_text() {
                            Some(text) => PreviewTaskView::Yank(text),
                            None => PreviewTaskView::Nothing,
                        },
                    )
                }
            } else {
                ignored
            },
            MouseEventKind::ScrollDown => (
                self.scrolled_by(sees, lines as int),
                true,
                PreviewTaskView::Nothing,
            ),
            MouseEventKind::ScrollUp => (
                self.scrolled_by(sees, -lines),
                true,
                PreviewTaskView::Nothing,
            ),
            _ => ignored,
        }
    }

    /// The mouse over the preview. The terminal reports every motion of the pointer, and
    /// taking one repaints the screen, so only an event that changed something is taken:
    /// the rest are ignored and cost nothing. `tree_width` is the width of the views beside
    /// the preview, `editor_room` what has to be left to them, `lines` how far the wheel
    /// scrolls.
    pub fn handle_mouse(
        &mut self,
        event: MouseEvent,
        sees: Focused,
        tree_width: u16,
        editor_room: u16,
        lines: isize,
    ) -> (r: (bool, PreviewTask))
        requires
            old(self).wf(),
            old(self).area.width + tree_width <= u16::MAX,
            lines > isize::MIN,
        ensures
            (*final(self), r.0, r.1.deep_view()) == old(self).after_mouse(
                event,
                sees,
                tree_width,
                editor_room,
                lines,
            ),
            final(self).wf(),
    {
        match event.kind {
            MouseEventKind::Down(MouseButton::Left) => {
                // The separator is the preview's first column, so the panel follows the
                // mouse as it grows to the left.
                if !self.full && event.column == self.area.x {
                    self.resizing = true;
                    return (true, PreviewTask::Nothing);
                }
                // A press starts a selection, and Shift takes the one already drawn to the
                // pointer, as they do over the file. What the press landed on is only
                // decided when the button is let go: a click follows a link, a drag selects.
                match self.position_at(sees, event.row, event.column) {
                    Some(place) => {
                        let anchor: (usize, usize) = match self.selection {
                            Some(selection) => if event.modifiers.is_shift() {
                                selection.anchor
                            } else {
                                place
                            },
                            None => place,
                        };
                        self.selection = Some(PreviewSelection { anchor, head: place });
                        self.selecting = true;
                        (true, PreviewTask::Nothing)
                    },
                    None => (false, PreviewTask::Nothing),
                }
            },
            MouseEventKind::Drag(MouseButton::Left) => {
                if self.resizing {
                    let total: u16 = self.area.width + tree_width;
                    let most: u16 = total.saturating_sub(editor_room);
                    let most: u16 = if most > MIN_WIDTH {
                        most
                    } else {
                        MIN_WIDTH
                    };
                    let wanted: u16 = self.area.right().saturating_sub(event.column);
                    self.width = Some(
                        if wanted < MIN_WIDTH {
                            MIN_WIDTH
                        } else if wanted > most {
                            most
                        } else {
                            wanted
                        },
                    );
                    return (true, PreviewTask::Nothing);
                }
                if !self.selecting {
                    return (false, PreviewTask::Nothing);
                }
                match (self.position_at(sees, event.row, event.column), self.selection) {
                    (Some(place), Some(selection)) => {
                        if selection.head.0 == place.0 && selection.head.1 == place.1 {
                            return (false, PreviewTask::Nothing);
                        }
                        self.selection = Some(
                            PreviewSelection { anchor: selection.anchor, head: place },
                        );
                        (true, PreviewTask::Nothing)
                    },
                    _ => (false, PreviewTask::Nothing),
                }
            },
            MouseEventKind::Up(MouseButton::Left) => {
                if self.resizing {
                    self.resizing = false;
                    return match self.width {
                        Some(width) => (true, PreviewTask::SaveWidth(width)),
                        None => (true, PreviewTask::Nothing),
                    };
                }
                if !self.selecting {
                    return (false, PreviewTask::Nothing);
                }
                let any: bool = self.has_selection();
                if !any {
                    let link: Option<String> = self.link_at(sees, event.row, event.column);
                    self.selecting = false;
                    self.selection = None;
                    return match link {
                        Some(target) => (true, PreviewTask::Follow(target)),
                        None => (true, PreviewTask::Nothing),
                    };
                }
                let text: Option<String> = self.selected_text();
                self.selecting = false;
                match text {
                    Some(text) => (true, PreviewTask::Yank(text)),
                    None => (true, PreviewTask::Nothing),
                }
            },
            MouseEventKind::ScrollDown => {
                self.scroll_by(sees, lines);
                (true, PreviewTask::Nothing)
            },
            MouseEventKind::ScrollUp => {
                self.scroll_by(sees, -lines);
                (true, PreviewTask::Nothing)
            },
            _ => (false, PreviewTask::Nothing),
        }
    }
}

// ---------------------------------------------------------------------------------------
// Following a link
// ---------------------------------------------------------------------------------------

/// Whether `url` reads a text as an absolute URL.
pub uninterp spec fn reads_as_url(text: Seq<char>) -> bool;

/// `url::Url::parse`: whether the text is an absolute URL, one with a scheme.
#[verifier::external_body]
fn is_url(text: &str) -> (r: bool)
    ensures
        r == reads_as_url(text@),
{
    url::Url::parse(text).is_ok()
}

/// Where a link leads: to the system's opener; or to a file beside the one it is in, this
/// one where the path is empty, and there to the heading its anchor names.
#[derive(Debug, PartialEq)]
pub enum Leads {
    Outside,
    Inside { path: String, anchor: Option<String> },
}

#[verifier::ext_equal]
pub enum LeadsView {
    Outside,
    Inside { path: Seq<char>, anchor: Option<Seq<char>> },
}

impl DeepView for Leads {
    type V = LeadsView;

    open spec fn deep_view(&self) -> LeadsView {
        match self {
            Leads::Outside => LeadsView::Outside,
            Leads::Inside { path, anchor } => LeadsView::Inside {
                path: path@,
                anchor: anchor.deep_view(),
            },
        }
    }
}

/// Where a link leads, once it is known whether it is a URL: anything with a scheme goes
/// outside, a path up to the first `#` is a file, and what follows is an anchor.
pub open spec fn link_leads(target: Seq<char>, url: bool) -> LeadsView {
    let hash = first(target, '#', 0);
    if url {
        LeadsView::Outside
    } else if hash == target.len() {
        LeadsView::Inside { path: target, anchor: None }
    } else {
        LeadsView::Inside {
            path: target.subrange(0, hash),
            anchor: Some(target.subrange(hash + 1, target.len() as int)),
        }
    }
}

/// Where a link leads, once it is known whether it is a URL.
pub fn follow_checked(target: &str, url: bool) -> (r: Leads)
    ensures
        r.deep_view() == link_leads(target@, url),
{
    if url {
        return Leads::Outside;
    }
    let letters: Vec<char> = chars(target);
    let hash: usize = find(letters.as_slice(), '#', 0);
    if hash == letters.len() {
        Leads::Inside { path: target.to_string(), anchor: None }
    } else {
        Leads::Inside {
            path: string(slice_subrange(letters.as_slice(), 0, hash)),
            anchor: Some(string(slice_subrange(letters.as_slice(), hash + 1, letters.len()))),
        }
    }
}

/// Where a link leads: anything with a scheme goes to the system's opener, a path opens in
/// the editor beside its file, and an anchor goes to the heading it names.
pub fn follow(target: &str) -> (r: Leads)
    ensures
        r.deep_view() == link_leads(target@, reads_as_url(target@)),
{
    let url: bool = is_url(target);
    follow_checked(target, url)
}

// ---------------------------------------------------------------------------------------
// Drawing
// ---------------------------------------------------------------------------------------

/// Where the text goes in a panel beside the file: the separator is its first column, and a
/// column of air stands on each side of the text.
pub open spec fn beside_content(area: Rect) -> Rect {
    area.spec_clip_left(2).spec_clip_right(1)
}

/// Where the text goes in a preview that has the screen to itself: in a column of its own
/// width in the middle of it.
pub open spec fn full_content(area: Rect) -> Rect {
    let width = min(READING_WIDTH as int, less(area.width as int, 4));
    Rect { width: width as u16, ..area.spec_clip_left((area.width - width) / 2) }
}

/// The text never leaves the panel it is drawn in.
pub proof fn content_stays_in_its_panel(area: Rect)
    requires
        area.fits(),
    ensures
        area.covers(beside_content(area)),
        area.covers(full_content(area)),
{
}

/// A row on screen: which one, where, and the columns of it that are selected, if any.
#[derive(Clone, Copy, Debug, PartialEq, Eq, Structural)]
pub struct DrawnRow {
    pub index: usize,
    pub y: u16,
    pub selected: Option<Rect>,
}

/// What a layout asks for.
#[derive(Clone, Copy, Debug, PartialEq, Eq, Structural)]
pub enum Layout {
    /// The rows are laid out again on this draw.
    Now,
    /// The rows on screen stay.
    Keep,
    /// The rows on screen stay, and a timer says when the file has rested.
    KeepAndWait,
}

impl MarkdownPreview {
    /// What is to be done about the rows before they are drawn.
    pub open spec fn layout(self, doc: usize, version: i32, width: u16, theme: Seq<char>)
        -> Layout {
        match self.rendered {
            None => Layout::Now,
            Some(rendered) => if rendered.doc != doc || rendered.width != width || rendered.theme@
                != theme {
                Layout::Now
            } else if rendered.version == version {
                Layout::Keep
            } else {
                match self.rest {
                    Some(rest) if rest.doc == doc && rest.version == version => if rest.settled {
                        Layout::Now
                    } else {
                        Layout::Keep
                    },
                    _ => Layout::KeepAndWait,
                }
            },
        }
    }

    /// Whether the rows are laid out again on this draw. Another file, another width or
    /// another theme: at once. An edit of the same file: only once it has rested, the old
    /// rows staying on screen meanwhile, since every keystroke would otherwise reparse the
    /// whole file.
    pub fn wants_layout(&mut self, doc: usize, version: i32, width: u16, theme: &str) -> (r:
        Layout)
        ensures
            r == old(self).layout(doc, version, width, theme@),
            *final(self) == (MarkdownPreview {
                rest: if r == Layout::KeepAndWait {
                    Some(Rest { doc, version, settled: false })
                } else {
                    old(self).rest
                },
                ..*old(self)
            }),
    {
        match &self.rendered {
            None => {
                return Layout::Now;
            },
            Some(rendered) => {
                if rendered.doc != doc || rendered.width != width || !same_str(
                    rendered.theme.as_str(),
                    theme,
                ) {
                    return Layout::Now;
                }
                if rendered.version == version {
                    return Layout::Keep;
                }
            },
        }
        if let Some(rest) = self.rest {
            if rest.doc == doc && rest.version == version {
                return if rest.settled {
                    Layout::Now
                } else {
                    Layout::Keep
                };
            }
        }
        self.rest = Some(Rest { doc, version, settled: false });
        Layout::KeepAndWait
    }

    /// The timer's word that the file stayed at `version` for long enough. A later edit
    /// armed a timer of its own, so an older one changes nothing.
    pub fn rested(&mut self, doc: usize, version: i32)
        ensures
            *final(self) == (MarkdownPreview {
                rest: match old(self).rest {
                    Some(rest) if rest.doc == doc && rest.version == version => Some(
                        Rest { settled: true, ..rest },
                    ),
                    other => other,
                },
                ..*old(self)
            }),
    {
        if let Some(rest) = self.rest {
            if rest.doc == doc && rest.version == version {
                self.rest = Some(Rest { doc, version, settled: true });
            }
        }
    }

    /// The rows laid out anew.
    pub fn lay_out(&mut self, rendered: Rendered)
        ensures
            *final(self) == (MarkdownPreview {
                rest: None,
                rendered: Some(rendered),
                ..*old(self)
            }),
    {
        self.rest = None;
        self.rendered = Some(rendered);
    }

    /// The panel placed beside the file.
    pub fn place_beside(&mut self, area: Rect)
        requires
            area.fits(),
        ensures
            *final(self) == (MarkdownPreview {
                area,
                content: beside_content(area),
                ..*old(self)
            }),
            final(self).wf(),
    {
        self.area = area;
        self.content = area.clip_left(2).clip_right(1);
    }

    /// The panel given the screen.
    pub fn place_full(&mut self, area: Rect)
        requires
            area.fits(),
        ensures
            *final(self) == (MarkdownPreview { area, content: full_content(area), ..*old(self) }),
            final(self).wf(),
    {
        let room: u16 = area.width.saturating_sub(4);
        let width: u16 = if READING_WIDTH < room {
            READING_WIDTH
        } else {
            room
        };
        let margin: u16 = (area.width - width) / 2;
        let content: Rect = area.clip_left(margin);
        self.area = area;
        self.content = Rect { width, ..content };
    }

    /// The columns of row `index`, `columns` wide, that are selected.
    pub open spec fn selected_columns(self, index: int, columns: int) -> (int, int) {
        let ((from_row, from_col), (to_row, to_col)) = self.selection->0.spec_ends();
        let from = if index == from_row {
            from_col as int
        } else {
            0
        };
        let to = if index == to_row {
            to_col as int
        } else {
            columns
        };
        (min(from, self.content.width as int), min(to, self.content.width as int))
    }

    /// What of row `index`, drawn at `y`, what the mouse selected is drawn over: a row
    /// inside it is taken from its first column to the end of what is written on it.
    pub open spec fn highlight(self, index: int, y: u16) -> Option<Rect> {
        if !self.spec_has_selection() {
            None
        } else {
            let ((from_row, _), (to_row, _)) = self.selection->0.spec_ends();
            let (from, to) = self.selected_columns(
                index,
                capped(
                    row_columns(self.rows()[index], self.rows()[index].spans.len()) as int,
                ) as int,
            );
            if index < from_row || index > to_row || to <= from {
                None
            } else {
                Some(
                    Rect {
                        x: (self.content.x + from) as u16,
                        y,
                        width: (to - from) as u16,
                        height: 1,
                    },
                )
            }
        }
    }

    fn highlighted(&self, rows: &Vec<Row>, index: usize, y: u16) -> (r: Option<Rect>)
        requires
            self.wf(),
            rows.deep_view() == self.rows(),
            index < rows@.len(),
        ensures
            r == self.highlight(index as int, y),
    {
        let selection: PreviewSelection = match self.selection {
            Some(selection) => selection,
            None => {
                return None;
            },
        };
        if selection.is_empty() {
            return None;
        }
        let ((from_row, from_col), (to_row, to_col)) = selection.ends();
        if index < from_row || index > to_row {
            return None;
        }
        proof {
            assert(self.rows()[index as int] == rows@[index as int].deep_view());
        }
        let from: usize = if index == from_row {
            from_col
        } else {
            0
        };
        let to: usize = if index == to_row {
            to_col
        } else {
            row_width(&rows[index])
        };
        let most: usize = self.content.width as usize;
        let from: u16 = if from < most {
            from as u16
        } else {
            self.content.width
        };
        let to: u16 = if to < most {
            to as u16
        } else {
            self.content.width
        };
        if to > from {
            Some(Rect::new(self.content.x + from, y, to - from, 1))
        } else {
            None
        }
    }

    /// How many rows are on screen.
    pub open spec fn rows_on_screen(self, sees: Focused) -> int {
        min(self.content.height as int, self.rows().len() - self.first_row(sees))
    }

    /// The rows on screen, from the top, and what of each is selected.
    pub fn draw(&self, sees: Focused) -> (r: Vec<DrawnRow>)
        requires
            self.wf(),
        ensures
            r@.len() == self.rows_on_screen(sees),
            forall|k: int|
                0 <= k < r@.len() ==> #[trigger] r@[k] == (DrawnRow {
                    index: (self.first_row(sees) + k) as usize,
                    y: (self.content.y + k) as u16,
                    selected: self.highlight(
                        self.first_row(sees) + k,
                        (self.content.y + k) as u16,
                    ),
                }),
    {
        let mut drawn: Vec<DrawnRow> = Vec::new();
        let rows: &Vec<Row> = match &self.rendered {
            Some(rendered) => &rendered.rows,
            None => {
                return drawn;
            },
        };
        let offset: usize = self.offset(sees);
        let mut k: u16 = 0;
        while k < self.content.height && (k as usize) < rows.len() - offset
            invariant
                self.wf(),
                rows.deep_view() == self.rows(),
                offset == self.first_row(sees),
                offset <= rows.len(),
                k <= self.content.height,
                offset + k <= rows.len(),
                drawn@.len() == k,
                forall|j: int|
                    0 <= j < k ==> #[trigger] drawn@[j] == (DrawnRow {
                        index: (self.first_row(sees) + j) as usize,
                        y: (self.content.y + j) as u16,
                        selected: self.highlight(
                            self.first_row(sees) + j,
                            (self.content.y + j) as u16,
                        ),
                    }),
            decreases self.content.height - k,
        {
            let index: usize = offset + k as usize;
            let y: u16 = self.content.y + k;
            let selected: Option<Rect> = self.highlighted(rows, index, y);
            let row: DrawnRow = DrawnRow { index, y, selected };
            drawn.push(row);
            k = k + 1;
        }
        drawn
    }
}

/// A rest that has settled is laid out on the next draw, and not before it has.
pub proof fn an_edit_is_laid_out_once_it_rests(
    preview: MarkdownPreview,
    doc: usize,
    version: i32,
    width: u16,
    theme: Seq<char>,
)
    requires
        preview.rendered is Some,
        preview.rendered->0.doc == doc,
        preview.rendered->0.width == width,
        preview.rendered->0.theme@ == theme,
        preview.rendered->0.version != version,
        preview.rest is Some,
        preview.rest->0.doc == doc,
        preview.rest->0.version == version,
    ensures
        (preview.layout(doc, version, width, theme) == Layout::Now) == preview.rest->0.settled,
{
}

} // verus!
