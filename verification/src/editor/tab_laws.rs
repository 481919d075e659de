//! What the tabs say, and what a click on them comes to.

use crate::editor::bufferline::{first_drawn, fit, halves, lemma_fit, or_reset, shown_from,
    tab_column, tabs_of, Bufferline, BufferlineHit, HalfBlock, OpenFile, TabView, MARK_WIDTH};
use crate::graphics::Color;
use vstd::prelude::*;

verus! {

/// Every open file has its tab, in the order of the files: the one being edited is lit, one
/// with changes shows a dot and any other a cross.
pub proof fn every_file_has_its_tab(files: Seq<OpenFile>, current: usize, n: nat, i: int)
    requires
        0 <= i < n <= files.len(),
    ensures
        ({
            let tabs = tabs_of(files, current, false, n);
            &&& tabs.len() == n
            &&& tabs[i].doc == files[i].id
            &&& tabs[i].active == (files[i].id == current)
            &&& !tabs[i].preview
            &&& tabs[i].name == "  "@ + files[i].name@ + "  "@
            &&& (tabs[i].mark == "\u{25cf}"@) == files[i].modified
            &&& (tabs[i].mark == "\u{d7}"@) == !files[i].modified
        }),
    decreases n,
{
    reveal_strlit("\u{25cf}");
    reveal_strlit("\u{d7}");
    assert("\u{25cf}"@[0] != "\u{d7}"@[0]);
    if n > 1 && i < n - 1 {
        every_file_has_its_tab(files, current, (n - 1) as nat, i);
    } else if n > 1 {
        every_file_has_its_tab(files, current, (n - 1) as nat, 0);
    } else {
        assert(tabs_of(files, current, false, 0).len() == 0);
    }
}

/// With a preview filling the screen its tab is the only one lit, and stands right behind its
/// file's.
pub proof fn a_preview_has_the_tab_in_front(files: Seq<OpenFile>, current: usize, n: nat, k: int)
    requires
        n <= files.len(),
        0 <= k < tabs_of(files, current, true, n).len(),
    ensures
        ({
            let tabs = tabs_of(files, current, true, n);
            &&& tabs[k].active == tabs[k].preview
            &&& tabs[k].preview ==> k > 0 && tabs[k].doc == current && tabs[k - 1].doc == current
                && !tabs[k - 1].preview
            &&& !tabs[k].preview && tabs[k].doc == current ==> k + 1 < tabs.len() && tabs[k
                + 1].preview
        }),
    decreases n,
{
    if n > 0 {
        let before = tabs_of(files, current, true, (n - 1) as nat);
        let tabs = tabs_of(files, current, true, n);
        if k < before.len() {
            a_preview_has_the_tab_in_front(files, current, (n - 1) as nat, k);
            assert(tabs[k] == before[k]);
            if k > 0 {
                assert(tabs[k - 1] == before[k - 1]);
            }
            if k + 1 < before.len() {
                assert(tabs[k + 1] == before[k + 1]);
            }
        }
    }
}

proof fn lemma_tab_under(strip: Bufferline, k: int, i: int, row: u16, column: u16)
    requires
        0 <= k <= i < strip.tabs@.len(),
        strip.tabs@[i].area.holds(row as int, column as int),
        forall|j: int|
            0 <= j < i ==> !(#[trigger] strip.tabs@[j]).area.holds(row as int, column as int),
    ensures
        strip.tab_under(k, row, column) == i,
    decreases i - k,
{
    if k < i {
        assert(!strip.tabs@[k].area.holds(row as int, column as int));
        lemma_tab_under(strip, k + 1, i, row, column);
    }
}

proof fn lemma_none_under(strip: Bufferline, k: int, row: u16, column: u16)
    requires
        0 <= k <= strip.tabs@.len(),
        forall|j: int|
            0 <= j < strip.tabs@.len() ==> !(#[trigger] strip.tabs@[j]).area.holds(
                row as int,
                column as int,
            ),
    ensures
        strip.tab_under(k, row, column) == strip.tabs@.len(),
    decreases strip.tabs@.len() - k,
{
    if k < strip.tabs@.len() {
        assert(!strip.tabs@[k].area.holds(row as int, column as int));
        lemma_none_under(strip, k + 1, row, column);
    }
}

/// A click on a tab opens its file; on its cross, or a column beside it, it closes it. The tab
/// of a preview closes the preview, and leaves its file alone. Beside the tabs there is nothing.
pub proof fn a_click_lands_on_its_tab(strip: Bufferline, i: int, row: u16, column: u16)
    ensures
        0 <= i < strip.tabs@.len() && strip.tabs@[i].area.holds(row as int, column as int) && (
        forall|j: int|
            0 <= j < i ==> !(#[trigger] strip.tabs@[j]).area.holds(row as int, column as int))
            ==> {
            let tab = strip.tabs@[i];
            let near = column == tab.close || column == tab.close + 1 || column + 1 == tab.close;
            &&& !tab.preview && near ==> strip.hit(row, column) == Some(
                BufferlineHit::Close(tab.doc),
            )
            &&& !tab.preview && !near ==> strip.hit(row, column) == Some(
                BufferlineHit::Open(tab.doc),
            )
            &&& tab.preview && near ==> strip.hit(row, column) == Some(BufferlineHit::ClosePreview)
            &&& tab.preview && !near ==> strip.hit(row, column) is None
        },
        (forall|j: int|
            0 <= j < strip.tabs@.len() ==> !(#[trigger] strip.tabs@[j]).area.holds(
                row as int,
                column as int,
            )) ==> strip.hit(row, column) is None,
{
    if 0 <= i < strip.tabs@.len() && strip.tabs@[i].area.holds(row as int, column as int) && (
    forall|j: int|
        0 <= j < i ==> !(#[trigger] strip.tabs@[j]).area.holds(row as int, column as int)) {
        lemma_tab_under(strip, 0, i, row, column);
    }
    if forall|j: int|
        0 <= j < strip.tabs@.len() ==> !(#[trigger] strip.tabs@[j]).area.holds(
            row as int,
            column as int,
        ) {
        lemma_none_under(strip, 0, row, column);
    }
}

proof fn lemma_next_does_not_fit(tabs: Seq<TabView>, first: int, k: int, width: int)
    requires
        0 <= first <= k <= tabs.len(),
    ensures
        ({
            let end = k + fit(tabs, k, tab_column(tabs, first, k), width);
            end < tabs.len() ==> tab_column(tabs, first, end) + tabs[end].columns() + (if end + 1
                < tabs.len() {
                MARK_WIDTH as int
            } else {
                0
            }) > width
        }),
    decreases tabs.len() - k,
{
    if k < tabs.len() {
        let x = tab_column(tabs, first, k);
        let mark = if k + 1 < tabs.len() {
            MARK_WIDTH as int
        } else {
            0
        };
        if x + tabs[k].columns() + mark <= width {
            assert(tab_column(tabs, first, k + 1) == x + tabs[k].columns() + 1);
            lemma_next_does_not_fit(tabs, first, k + 1, width);
        }
    }
}

/// As many tabs are on screen as there is room for: the one behind the last would not fit.
pub proof fn no_tab_is_hidden_that_fits(tabs: Seq<TabView>, first: int, width: int)
    requires
        0 <= first <= tabs.len(),
    ensures
        ({
            let end = first + shown_from(tabs, first, width);
            &&& first <= end <= tabs.len()
            &&& end < tabs.len() ==> tab_column(tabs, first, end) + tabs[end].columns() + (if end
                + 1 < tabs.len() {
                MARK_WIDTH as int
            } else {
                0
            }) > width
        }),
{
    lemma_fit(tabs, first, crate::editor::bufferline::fit_start(first), width);
    lemma_next_does_not_fit(tabs, first, first, width);
}

/// The strip stays where it is as long as the tab in front is on screen.
pub proof fn the_strip_moves_only_where_it_must(
    tabs: Seq<TabView>,
    first: int,
    current: int,
    width: int,
)
    requires
        0 <= first <= current,
        current < first + shown_from(tabs, first, width),
    ensures
        first_drawn(tabs, first, current, width) == first,
{
}

/// The colours of the upper and the lower half of a cell.
pub open spec fn painted(cell: HalfBlock) -> (Color, Color) {
    let ink = or_reset(cell.fg);
    if cell.symbol == '\u{2584}' {
        (cell.bg, ink)
    } else if cell.symbol == '\u{2580}' {
        (ink, cell.bg)
    } else {
        (cell.bg, cell.bg)
    }
}

/// A cell in two halves shows the one colour over the other.
pub proof fn halves_show_their_colours(upper: Option<Color>, lower: Option<Color>)
    ensures
        painted(halves(upper, lower)) == (or_reset(upper), or_reset(lower)),
{
}

} // verus!
