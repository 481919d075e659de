//! The rows of a picker's table.

use crate::graphics::{capped_cell, max, Span, SpanView, Style};
use crate::picker::cells::{asks_nothing, cell_columns, cell_width, draw_cell, is_marked,
    pattern_used};
use crate::picker::list::Picker;
use crate::picker::panel::{filtering, ColumnView};
use crate::text::same_str;
use vstd::prelude::*;

verus! {

/// A copy of the spans of a cell.
fn copy_spans(spans: &Vec<Span>) -> (r: Vec<Span>)
    ensures
        r.deep_view() == spans.deep_view(),
{
    let ghost all = spans.deep_view();
    let mut out: Vec<Span> = Vec::new();
    let mut n: usize = 0;
    proof {
        assert(out.deep_view() =~= all.take(0));
    }
    while n < spans.len()
        invariant
            n <= spans@.len(),
            all == spans.deep_view(),
            out.deep_view() == all.take(n as int),
        decreases spans@.len() - n,
    {
        let letters: Vec<char> = crate::text::chars(spans[n].text.as_str());
        let span: Span = Span::styled(crate::text::string(letters.as_slice()), spans[n].style);
        let ghost before = out.deep_view();
        out.push(span);
        n = n + 1;
        proof {
            assert(all[n - 1] == spans@[n - 1].deep_view());
            assert(out.deep_view() =~= before.push(span.deep_view()));
            assert(out.deep_view() =~= all.take(n as int));
        }
    }
    proof {
        assert(all.take(n as int) =~= all);
    }
    out
}

/// The pattern of the hidden column that is searched in the place of the shown ones: the
/// primary column's, where it is hidden and filtered by.
pub open spec fn searched(columns: Seq<ColumnView>, primary: int, patterns: Seq<Seq<char>>) -> Option<
    Seq<char>,
> {
    if columns[primary].hidden && columns[primary].filter {
        Some(patterns[filtering(columns, primary as nat) as int])
    } else {
        None
    }
}

/// Whether this is a cell of a row as drawn: `cells` has what each column shows, `texts` what
/// each column that is filtered by is matched by, and `patterns` what was typed for it.
pub open spec fn is_drawn_cell(
    drawn: Seq<SpanView>,
    columns: Seq<ColumnView>,
    primary: int,
    i: int,
    cells: Seq<Seq<SpanView>>,
    texts: Seq<Seq<char>>,
    patterns: Seq<Seq<char>>,
    paths: bool,
    mark: Style,
) -> bool {
    let m = filtering(columns, i as nat) as int;
    if columns[i].hidden {
        drawn == Seq::<SpanView>::empty()
    } else if columns[i].filter {
        let pattern = pattern_used(
            patterns[m],
            searched(columns, primary, patterns),
            asks_nothing(patterns[m]),
        );
        is_marked(drawn, cells[i], pattern, texts[m], paths, mark)
    } else {
        drawn == cells[i]
    }
}

/// The width of a column once a row has been drawn: a column grows with what is in it, and a
/// hidden one takes no room.
pub open spec fn grown(column: ColumnView, width: u16, cell: Seq<SpanView>) -> u16 {
    if column.hidden {
        width
    } else {
        max(width as int, capped_cell(cell_columns(cell, cell.len()) as int) as int) as u16
    }
}

proof fn lemma_filtering(columns: Seq<ColumnView>, i: nat, n: nat)
    requires
        i < n <= columns.len(),
        columns[i as int].filter,
    ensures
        filtering(columns, i) < filtering(columns, n),
    decreases n,
{
    if i + 1 < n {
        lemma_filtering(columns, i, (n - 1) as nat);
    }
}

impl Picker {
    /// Draws a row and widens the columns to what is in it.
    #[verifier::rlimit(30)]
    pub fn draw_row(
        &mut self,
        cells: &Vec<Vec<Span>>,
        texts: &Vec<String>,
        patterns: &Vec<String>,
        mark: Style,
    ) -> (r: Vec<Vec<Span>>)
        requires
            old(self).wf(),
            old(self).widths@.len() == old(self).columns@.len(),
            cells@.len() == old(self).columns@.len(),
            texts@.len() == filtering(old(self).columns.deep_view(), old(self).columns@.len()),
            patterns@.len() == texts@.len(),
        ensures
            r@.len() == old(self).columns@.len(),
            forall|i: int|
                0 <= i < r@.len() ==> is_drawn_cell(
                    #[trigger] r.deep_view()[i],
                    old(self).columns.deep_view(),
                    old(self).primary_column as int,
                    i,
                    cells.deep_view(),
                    texts.deep_view(),
                    patterns.deep_view(),
                    old(self).has_preview,
                    mark,
                ),
            final(self).widths@.len() == old(self).widths@.len(),
            forall|i: int|
                0 <= i < r@.len() ==> #[trigger] final(self).widths@[i] == grown(
                    old(self).columns.deep_view()[i],
                    old(self).widths@[i],
                    cells.deep_view()[i],
                ),
            *final(self) == (Picker { widths: final(self).widths, ..*old(self) }),
            final(self).wf(),
    {
        let ghost columns = self.columns.deep_view();
        let ghost count = columns.len();
        let ghost primary = self.primary_column as int;
        let mut before: usize = 0;
        let mut n: usize = 0;
        while n < self.primary_column
            invariant
                n <= self.primary_column < self.columns@.len(),
                columns == self.columns.deep_view(),
                before <= n,
                before == filtering(columns, n as nat),
            decreases self.primary_column - n,
        {
            proof {
                assert(columns[n as int] == self.columns@[n as int].deep_view());
            }
            if self.columns[n].filter {
                before = before + 1;
            }
            n = n + 1;
        }
        proof {
            assert(columns[primary] == self.columns@[primary].deep_view());
            if columns[primary].filter {
                lemma_filtering(columns, primary as nat, count);
            }
        }
        let hidden: Option<&str> = if self.columns[self.primary_column].hidden
            && self.columns[self.primary_column].filter {
            Some(patterns[before].as_str())
        } else {
            None
        };
        let mut out: Vec<Vec<Span>> = Vec::new();
        let mut m: usize = 0;
        let mut i: usize = 0;
        while i < self.columns.len()
            invariant
                i <= self.columns@.len(),
                columns == self.columns.deep_view(),
                count == columns.len(),
                self.columns == old(self).columns,
                *self == (Picker { widths: self.widths, ..*old(self) }),
                primary == self.primary_column,
                hidden.deep_view() == searched(columns, primary, patterns.deep_view()),
                m == filtering(columns, i as nat),
                m <= i,
                cells@.len() == count,
                self.widths@.len() == count,
                old(self).widths@.len() == count,
                texts@.len() == filtering(columns, count),
                patterns@.len() == texts@.len(),
                out@.len() == i,
                forall|j: int|
                    0 <= j < i ==> is_drawn_cell(
                        #[trigger] out.deep_view()[j],
                        columns,
                        primary,
                        j,
                        cells.deep_view(),
                        texts.deep_view(),
                        patterns.deep_view(),
                        self.has_preview,
                        mark,
                    ),
                forall|j: int|
                    0 <= j < i ==> #[trigger] self.widths@[j] == grown(
                        columns[j],
                        old(self).widths@[j],
                        cells.deep_view()[j],
                    ),
                forall|j: int|
                    i <= j < count ==> #[trigger] self.widths@[j] == old(self).widths@[j],
            decreases self.columns@.len() - i,
        {
            let ghost before_out = out.deep_view();
            proof {
                assert(columns[i as int] == self.columns@[i as int].deep_view());
                assert(cells.deep_view()[i as int] == cells@[i as int].deep_view());
                if columns[i as int].filter {
                    lemma_filtering(columns, i as nat, count);
                    assert(texts.deep_view()[m as int] == texts@[m as int]@);
                    assert(patterns.deep_view()[m as int] == patterns@[m as int]@);
                }
            }
            let filter: bool = self.columns[i].filter;
            let drawn: Vec<Span> = if self.columns[i].hidden {
                let none: Vec<Span> = Vec::new();
                proof {
                    assert(none.deep_view() =~= Seq::empty());
                }
                none
            } else {
                let width: usize = cell_width(&cells[i]);
                let width: u16 = if width > 65535 {
                    65535
                } else {
                    width as u16
                };
                if width > self.widths[i] {
                    self.widths[i] = width;
                }
                if filter {
                    draw_cell(
                        patterns[m].as_str(),
                        hidden,
                        &cells[i],
                        texts[m].as_str(),
                        self.has_preview,
                        mark,
                    )
                } else {
                    copy_spans(&cells[i])
                }
            };
            let ghost shown = drawn.deep_view();
            out.push(drawn);
            proof {
                assert(out.deep_view() =~= before_out.push(shown));
            }
            if filter {
                m = m + 1;
            }
            i = i + 1;
        }
        out
    }

    /// Which columns lose their start where they do not fit. A path keeps its tail so the
    /// file name survives; a column of plain text keeps its head, where the reader starts.
    pub fn cut_starts(&self) -> (r: Vec<bool>)
        ensures
            r@.len() == self.columns@.len(),
            forall|i: int|
                0 <= i < r@.len() ==> #[trigger] r@[i] == (self.truncate_start
                    && self.columns@[i].truncate_start),
    {
        let mut out: Vec<bool> = Vec::new();
        let mut n: usize = 0;
        while n < self.columns.len()
            invariant
                n <= self.columns@.len(),
                out@.len() == n,
                forall|i: int|
                    0 <= i < n ==> #[trigger] out@[i] == (self.truncate_start
                        && self.columns@[i].truncate_start),
            decreases self.columns@.len() - n,
        {
            out.push(self.truncate_start && self.columns[n].truncate_start);
            n = n + 1;
        }
        out
    }

    /// The name above a column and whether it is the one being typed for, in a picker of
    /// more than one column; a hidden one has none.
    pub fn header(&self, column: usize, active: Option<&str>) -> (r: Option<(&str, bool)>)
        requires
            column < self.columns@.len(),
        ensures
            match r {
                None => self.columns@.len() <= 1 || self.columns@[column as int].hidden,
                Some((name, is_active)) => {
                    &&& self.columns@.len() > 1 && !self.columns@[column as int].hidden
                    &&& name@ == self.columns@[column as int].name@
                    &&& is_active == (active.deep_view() == Some(name@))
                },
            },
    {
        if self.columns.len() <= 1 || self.columns[column].hidden {
            return None;
        }
        let name: &str = self.columns[column].name.as_str();
        let is_active: bool = match active {
            Some(active) => same_str(active, name),
            None => false,
        };
        Some((name, is_active))
    }
}

/// A hidden column keeps the width it was made with, which is none.
pub proof fn a_hidden_column_takes_no_room(column: ColumnView, cell: Seq<SpanView>)
    requires
        column.hidden,
    ensures
        grown(column, crate::picker::list::first_width(column), cell) == 0,
{
}

} // verus!
