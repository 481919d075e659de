//! Where a picker is drawn: the query line with the switches behind it, the boxes, the rows
//! and the preview beside them, and what they are drawn in.

use crate::graphics::{capped_cell, count_letters, less, max, min, Modifiers, Rect, Style};
use crate::picker::list::{Focus, Picker, MIN_AREA_WIDTH_FOR_PREVIEW};
use crate::picker::panel::{shown_fields, FieldView, PanelField, PanelToggle, ToggleView};
use crate::text::{append_str, chars, decimal, same_str, string, write_number};
use crate::theme::ThemeStyles;
use vstd::prelude::*;

verus! {

/// Columns between the items at the right end of the query line. A switch carries its own
/// padding, so one is enough.
pub const SUFFIX_GAP: u16 = 1;

// ---------------------------------------------------------------------------------------
// What is written on the borders and on the query line
// ---------------------------------------------------------------------------------------

/// What a picker is called, on its top border.
pub open spec fn titled(title: Seq<char>) -> Seq<char> {
    " "@ + title + " "@
}

/// The hint with one item more.
pub open spec fn hint_with(hint: Seq<char>, item: Seq<char>) -> Seq<char> {
    hint + " "@ + item + " "@
}

/// The hint of the items from `k` on behind what there is of it. What does not fit is dropped
/// whole, never cut halfway through a key.
pub open spec fn hint_from(items: Seq<Seq<char>>, k: int, hint: Seq<char>, width: int) -> Seq<char>
    decreases items.len() - k,
{
    if k >= items.len() || hint_with(hint, items[k]).len() > width {
        hint
    } else {
        hint_from(items, k + 1, hint_with(hint, items[k]), width)
    }
}

/// The line of help on the bottom border, in a width.
pub fn hint_text(items: &Vec<&'static str>, width: u16) -> (r: String)
    ensures
        r@ == hint_from(items.deep_view(), 0, Seq::empty(), width as int),
{
    let ghost all = items.deep_view();
    let mut hint: Vec<char> = Vec::new();
    let mut k: usize = 0;
    while k < items.len()
        invariant
            k <= items@.len(),
            all == items.deep_view(),
            hint_from(all, 0, Seq::empty(), width as int) == hint_from(
                all,
                k as int,
                hint@,
                width as int,
            ),
        decreases items@.len() - k,
    {
        let item: &'static str = items[k];
        proof {
            assert(all[k as int] == item@);
        }
        let mut next: Vec<char> = Vec::new();
        crate::text::append(&mut next, hint.as_slice());
        append_str(&mut next, " ");
        append_str(&mut next, item);
        append_str(&mut next, " ");
        proof {
            assert(next@ =~= hint_with(hint@, all[k as int]));
        }
        if next.len() > width as usize {
            return string(hint.as_slice());
        }
        hint = next;
        k = k + 1;
    }
    string(hint.as_slice())
}

/// How many rows match, of how many there are.
pub open spec fn counted(running: bool, matched: u32, items: u32) -> Seq<char> {
    (if running {
        "(running) "@
    } else {
        Seq::empty()
    }) + decimal(matched as nat) + "/"@ + decimal(items as nat)
}

pub fn count_text(running: bool, matched: u32, items: u32) -> (r: String)
    ensures
        r@ == counted(running, matched, items),
{
    let mut out: Vec<char> = Vec::new();
    if running {
        append_str(&mut out, "(running) ");
    }
    proof {
        assert(out@ =~= if running {
            "(running) "@
        } else {
            Seq::empty()
        });
    }
    write_number(&mut out, matched as u64);
    append_str(&mut out, "/");
    write_number(&mut out, items as u64);
    string(out.as_slice())
}

/// Whether a switch hides text: it is what shows a box that holds some.
pub open spec fn hides_text(fields: Seq<FieldView>, name: Seq<char>) -> bool {
    exists|i: int|
        0 <= i < fields.len() && (#[trigger] fields[i]).shown_by == Some(name)
            && fields[i].line.len() > 0
}

/// Whether a switch has something to say: it is off with text in a box it hides, and hidden
/// filters still narrow the results.
pub open spec fn warns(toggle: ToggleView, fields: Seq<FieldView>) -> bool {
    toggle.warning is Some && !toggle.on && hides_text(fields, toggle.name)
}

/// What the first `n` switches warn of.
pub open spec fn warnings(toggles: Seq<ToggleView>, fields: Seq<FieldView>, n: nat) -> Seq<Seq<char>>
    decreases n,
{
    if n == 0 {
        Seq::empty()
    } else {
        let before = warnings(toggles, fields, (n - 1) as nat);
        if warns(toggles[n - 1], fields) {
            before.push(toggles[n - 1].warning->0)
        } else {
            before
        }
    }
}

/// A switch as drawn, padded inside its own colour so it reads as a button.
pub open spec fn switch_text(toggle: ToggleView) -> Seq<char> {
    " "@ + toggle.label + " "@
}

/// What stands at the right end of the query line: the warnings, the switches, the count.
pub open spec fn suffix(toggles: Seq<ToggleView>, fields: Seq<FieldView>, count: Seq<char>) -> Seq<
    Seq<char>,
> {
    warnings(toggles, fields, toggles.len()) + toggles.map_values(
        |toggle: ToggleView| switch_text(toggle),
    ) + seq![count]
}

/// The columns the first `k` items of a suffix take, with one behind each.
pub open spec fn taken(items: Seq<Seq<char>>, k: nat) -> nat
    decreases k,
{
    if k == 0 {
        0
    } else {
        taken(items, (k - 1) as nat) + items[k - 1].len() + 1
    }
}

fn hides(fields: &Vec<PanelField>, name: &str) -> (r: bool)
    ensures
        r == hides_text(fields.deep_view(), name@),
{
    let ghost all = fields.deep_view();
    let mut k: usize = 0;
    while k < fields.len()
        invariant
            k <= fields@.len(),
            all == fields.deep_view(),
            forall|i: int|
                0 <= i < k ==> !((#[trigger] all[i]).shown_by == Some(name@) && all[i].line.len()
                    > 0),
        decreases fields@.len() - k,
    {
        proof {
            assert(all[k as int] == fields@[k as int].deep_view());
        }
        if let Some(by) = fields[k].shown_by {
            if same_str(by, name) && chars(fields[k].line.as_str()).len() > 0 {
                return true;
            }
        }
        k = k + 1;
    }
    false
}

fn list_warnings(toggles: &Vec<PanelToggle>, fields: &Vec<PanelField>) -> (r: Vec<String>)
    ensures
        r.deep_view() == warnings(toggles.deep_view(), fields.deep_view(), toggles@.len()),
{
    let ghost all = toggles.deep_view();
    let mut out: Vec<String> = Vec::new();
    let mut n: usize = 0;
    proof {
        assert(out.deep_view() =~= Seq::empty());
    }
    while n < toggles.len()
        invariant
            n <= toggles@.len(),
            all == toggles.deep_view(),
            out.deep_view() == warnings(all, fields.deep_view(), n as nat),
        decreases toggles@.len() - n,
    {
        proof {
            assert(all[n as int] == toggles@[n as int].deep_view());
        }
        let toggle: &PanelToggle = &toggles[n];
        if let Some(warning) = toggle.warning {
            if !toggle.on && hides(fields, toggle.name) {
                let ghost before = out.deep_view();
                let letters: Vec<char> = chars(warning);
                out.push(string(letters.as_slice()));
                proof {
                    assert(out.deep_view() =~= before.push(warning@));
                }
            }
        }
        n = n + 1;
    }
    out
}

fn put_switches(out: &mut Vec<String>, toggles: &Vec<PanelToggle>)
    ensures
        final(out).deep_view() == old(out).deep_view() + toggles.deep_view().map_values(
            |toggle: ToggleView| switch_text(toggle),
        ),
{
    let ghost before = out.deep_view();
    let ghost labels = toggles.deep_view().map_values(|toggle: ToggleView| switch_text(toggle));
    let mut n: usize = 0;
    proof {
        assert(out.deep_view() =~= before + labels.take(0));
    }
    while n < toggles.len()
        invariant
            n <= toggles@.len(),
            labels == toggles.deep_view().map_values(|toggle: ToggleView| switch_text(toggle)),
            out.deep_view() == before + labels.take(n as int),
        decreases toggles@.len() - n,
    {
        let ghost so_far = out.deep_view();
        let mut label: Vec<char> = Vec::new();
        append_str(&mut label, " ");
        append_str(&mut label, toggles[n].label);
        append_str(&mut label, " ");
        proof {
            assert(label@ =~= switch_text(toggles@[n as int].deep_view()));
        }
        out.push(string(label.as_slice()));
        n = n + 1;
        proof {
            assert(labels[n - 1] == switch_text(toggles@[n - 1].deep_view()));
            assert(out.deep_view() =~= so_far.push(labels[n - 1]));
            assert(out.deep_view() =~= before + labels.take(n as int));
        }
    }
    proof {
        assert(labels.take(n as int) =~= labels);
    }
}

/// Width of a suffix of the query line: the items themselves, the gaps between them and one
/// column at the right edge, as far as the screen's numbers go.
pub fn suffix_width(items: &Vec<String>) -> (r: u16)
    ensures
        r == capped_cell(taken(items.deep_view(), items@.len()) as int),
{
    let ghost all = items.deep_view();
    let mut width: u16 = 0;
    let mut k: usize = 0;
    while k < items.len()
        invariant
            k <= items@.len(),
            all == items.deep_view(),
            width == capped_cell(taken(all, k as nat) as int),
        decreases items@.len() - k,
    {
        proof {
            assert(all[k as int] == items@[k as int]@);
        }
        width = width.saturating_add(count_letters(items[k].as_str())).saturating_add(SUFFIX_GAP);
        k = k + 1;
    }
    width
}

/// Where each item of a suffix is drawn, from a column on.
pub open spec fn suffix_columns(items: Seq<Seq<char>>, x: u16) -> Seq<u16> {
    Seq::new(items.len(), |k: int| capped_cell(x + taken(items, k as nat)))
}

fn place_suffix(items: &Vec<String>, x: u16) -> (r: Vec<u16>)
    ensures
        r@ == suffix_columns(items.deep_view(), x),
{
    let ghost all = items.deep_view();
    let mut out: Vec<u16> = Vec::new();
    let mut width: u16 = 0;
    let mut k: usize = 0;
    while k < items.len()
        invariant
            k <= items@.len(),
            all == items.deep_view(),
            width == capped_cell(taken(all, k as nat) as int),
            out@ == suffix_columns(all, x).take(k as int),
        decreases items@.len() - k,
    {
        proof {
            assert(all[k as int] == items@[k as int]@);
        }
        out.push(x.saturating_add(width));
        width = width.saturating_add(count_letters(items[k].as_str())).saturating_add(SUFFIX_GAP);
        k = k + 1;
        proof {
            assert(out@ =~= suffix_columns(all, x).take(k as int));
        }
    }
    proof {
        assert(out@ =~= suffix_columns(all, x));
    }
    out
}

/// The button of a box as drawn: it says Enter because Enter in its box presses it.
pub open spec fn button_text(label: Seq<char>) -> Seq<char> {
    " \u{23ce} "@ + label + " "@
}

// ---------------------------------------------------------------------------------------
// The layout
// ---------------------------------------------------------------------------------------

/// The width of the widest label of the first `n` boxes.
pub open spec fn label_columns(fields: Seq<FieldView>, n: nat) -> int
    decreases n,
{
    if n == 0 {
        0
    } else {
        max(
            label_columns(fields, (n - 1) as nat),
            capped_cell(fields[n - 1].label.len() as int) as int,
        )
    }
}

fn widest_label(fields: &Vec<PanelField>) -> (r: u16)
    ensures
        r == label_columns(fields.deep_view(), fields@.len()),
{
    let ghost all = fields.deep_view();
    let mut width: u16 = 0;
    let mut n: usize = 0;
    while n < fields.len()
        invariant
            n <= fields@.len(),
            all == fields.deep_view(),
            width == label_columns(all, n as nat),
        decreases fields@.len() - n,
    {
        proof {
            assert(all[n as int] == fields@[n as int].deep_view());
        }
        let label: u16 = count_letters(fields[n].label);
        if label > width {
            width = label;
        }
        n = n + 1;
    }
    width
}

/// The line a box is on, the `k`-th under the query line.
pub open spec fn box_line(line: Rect, k: int) -> Rect {
    Rect { y: capped_cell(line.y + 1 + k), ..line }
}

/// Where the button of a box goes: at the right end, lined up with the match count above it.
pub open spec fn button_rect(line: Rect, label: Seq<char>) -> Rect {
    let width = capped_cell(button_text(label).len() as int);
    Rect {
        x: less(line.spec_right() as int, width + 1) as u16,
        y: line.y,
        width,
        height: 1,
    }
}

/// Where the text of a box goes: after the widest label, before its button.
pub open spec fn input_rect(line: Rect, labels: int, field: FieldView) -> Rect {
    let rest = line.spec_clip_left(labels + 2);
    match field.button {
        Some(label) => rest.spec_clip_right(
            capped_cell(button_text(label).len() as int) + 2,
        ),
        None => rest,
    }
}

/// The button among the first `n` boxes on screen: the last there is.
pub open spec fn button_among(line: Rect, shown: Seq<usize>, fields: Seq<FieldView>, n: nat) -> Option<
    Rect,
>
    decreases n,
{
    if n == 0 {
        None
    } else {
        match fields[shown[n - 1] as int].button {
            Some(label) => Some(button_rect(box_line(line, n - 1), label)),
            None => button_among(line, shown, fields, (n - 1) as nat),
        }
    }
}

/// What is drawn of a picker, beside what the picker keeps for the pointer.
#[derive(Debug)]
pub struct PickerLayout {
    /// What the picker is, on its top border, from the third column on.
    pub title: Option<String>,
    /// The line of help on the bottom border.
    pub hint: String,
    /// What stands at the right end of the query line, and from which column on. The
    /// switches stand one before the last, behind the warnings.
    pub suffix: Vec<String>,
    pub suffix_columns: Vec<u16>,
    /// The columns the labels of the boxes have.
    pub label_width: u16,
    /// The row of the line under the inputs.
    pub separator: u16,
    /// Where the table is drawn, its header row included.
    pub table: Rect,
    /// The row in focus, counted from the first on screen.
    pub selected: u32,
    /// One past the last match on screen.
    pub end: u32,
}

impl Picker {
    /// A row for the names of the columns, where there is more than one.
    pub open spec fn header_rows(self) -> u16 {
        if self.columns@.len() > 1 {
            1
        } else {
            0
        }
    }

    pub fn header_height(&self) -> (r: u16)
        ensures
            r == self.header_rows(),
    {
        if self.columns.len() > 1 {
            1
        } else {
            0
        }
    }

    /// Whether the preview is drawn beside the list.
    pub open spec fn previews_in(self, area: Rect) -> bool {
        self.show_preview && self.has_preview && area.width > MIN_AREA_WIDTH_FOR_PREVIEW
    }

    /// The columns the list has: half of them beside a preview.
    pub open spec fn list_columns(self, area: Rect) -> u16 {
        if self.previews_in(area) {
            area.width / 2
        } else {
            area.width
        }
    }

    fn list_width(&self, area: Rect) -> (r: u16)
        ensures
            r == self.list_columns(area),
    {
        if self.show_preview && self.has_preview && area.width > MIN_AREA_WIDTH_FOR_PREVIEW {
            area.width / 2
        } else {
            area.width
        }
    }

    pub fn toggle_preview(&mut self)
        ensures
            *final(self) == (Picker { show_preview: !old(self).show_preview, ..*old(self) }),
    {
        self.show_preview = !self.show_preview;
    }

    /// Splits what there is into the list and the preview, which is remembered for the
    /// wheel.
    pub fn split(&mut self, area: Rect) -> (r: (Rect, Option<Rect>))
        ensures
            ({
                let beside = area.spec_clip_left(old(self).list_columns(area) as int);
                &&& r.0 == (Rect { width: old(self).list_columns(area), ..area })
                &&& r.1 == if old(self).previews_in(area) {
                    Some(beside)
                } else {
                    None
                }
                &&& *final(self) == (Picker {
                    preview_area: if old(self).previews_in(area) {
                        beside
                    } else {
                        Rect { x: 0, y: 0, width: 0, height: 0 }
                    },
                    ..*old(self)
                })
            }),
    {
        let width: u16 = self.list_width(area);
        let list: Rect = Rect { width, ..area };
        if self.show_preview && self.has_preview && area.width > MIN_AREA_WIDTH_FOR_PREVIEW {
            let beside: Rect = area.clip_left(width);
            self.preview_area = beside;
            (list, Some(beside))
        } else {
            self.preview_area = Rect::new(0, 0, 0, 0);
            (list, None)
        }
    }

    /// The query line with what stands behind it.
    pub open spec fn input_line(area: Rect) -> Rect {
        Rect { height: 1, ..area.spec_inside_border().spec_clip_left(1) }
    }

    /// The lines above the separator.
    pub open spec fn input_lines(self) -> u16 {
        capped_cell(1 + self.boxes().len() as int)
    }

    /// Where the table is drawn.
    pub open spec fn table_area(self, area: Rect) -> Rect {
        area.spec_inside_border().spec_clip_top(self.input_lines() + 1)
    }

    /// How many rows of results there is room for.
    pub open spec fn room(self, area: Rect) -> int {
        less(self.table_area(area).height as int, self.header_rows() as int)
    }

    /// The first row of a page.
    pub open spec fn page_start(cursor: u32, rows: int) -> int {
        cursor - cursor as int % max(1, rows)
    }

    /// Where the boxes on screen are drawn.
    pub open spec fn boxes_at(self, line: Rect) -> Seq<(usize, Rect)> {
        let fields = self.panel_fields.deep_view();
        Seq::new(
            self.boxes().len(),
            |k: int|
                (
                    self.boxes()[k],
                    input_rect(
                        box_line(line, k),
                        label_columns(fields, fields.len()),
                        fields[self.boxes()[k] as int],
                    ),
                ),
        )
    }

    /// Where the switches are drawn, among what stands behind the query line from a column
    /// on.
    pub open spec fn switches_at(self, line: Rect, items: Seq<Seq<char>>, x: u16) -> Seq<Rect> {
        let count = self.panel_toggles@.len();
        let first = items.len() - 1 - count;
        Seq::new(
            count,
            |k: int|
                Rect {
                    x: suffix_columns(items, x)[first + k],
                    y: line.y,
                    width: capped_cell(items[first + k].len() as int),
                    height: 1,
                },
        )
    }

    /// What stands behind the query line.
    pub open spec fn suffix_items(self, running: bool, matched: u32, items: u32) -> Seq<Seq<char>> {
        suffix(
            self.panel_toggles.deep_view(),
            self.panel_fields.deep_view(),
            counted(running, matched, items),
        )
    }

    /// The row in focus once the matches have changed under it.
    pub open spec fn cursor_among(self, changed: bool, matched: u32) -> u32 {
        if changed {
            min(self.cursor as int, less(matched as int, 1)) as u32
        } else {
            self.cursor
        }
    }

    fn place_switches(&self, line: Rect, items: &Vec<String>, columns: &Vec<u16>, x: u16) -> (r: Vec<
        Rect,
    >)
        requires
            items@.len() >= self.panel_toggles@.len() + 1,
            columns@ == suffix_columns(items.deep_view(), x),
        ensures
            r@ == self.switches_at(line, items.deep_view(), x),
    {
        let first: usize = items.len() - 1 - self.panel_toggles.len();
        let mut out: Vec<Rect> = Vec::new();
        let ghost want = self.switches_at(line, items.deep_view(), x);
        let last: usize = items.len();
        let mut k: usize = 0;
        while k < self.panel_toggles.len()
            invariant
                k <= self.panel_toggles@.len(),
                last == items@.len(),
                first + 1 + self.panel_toggles@.len() == last,
                columns@ == suffix_columns(items.deep_view(), x),
                want == self.switches_at(line, items.deep_view(), x),
                out@ == want.take(k as int),
            decreases self.panel_toggles@.len() - k,
        {
            proof {
                assert(items.deep_view()[first + k] == items@[first + k]@);
            }
            out.push(
                Rect::new(columns[first + k], line.y, count_letters(items[first + k].as_str()), 1),
            );
            k = k + 1;
            proof {
                assert(out@ =~= want.take(k as int));
            }
        }
        proof {
            assert(out@ =~= want);
        }
        out
    }

    fn place_boxes(&self, line: Rect, labels: u16) -> (r: (Vec<(usize, Rect)>, Option<Rect>))
        requires
            labels == label_columns(self.panel_fields.deep_view(), self.panel_fields@.len()),
        ensures
            (r.0)@ == self.boxes_at(line),
            r.1 == button_among(
                line,
                self.boxes(),
                self.panel_fields.deep_view(),
                self.boxes().len(),
            ),
            forall|i: int|
                0 <= i < (r.0)@.len() ==> (#[trigger] (r.0)@[i]).0 < self.panel_fields@.len(),
    {
        let shown: Vec<usize> = shown_fields(&self.panel_fields, &self.panel_toggles);
        let ghost fields = self.panel_fields.deep_view();
        let ghost want = self.boxes_at(line);
        let mut out: Vec<(usize, Rect)> = Vec::new();
        let mut button: Option<Rect> = None;
        let mut k: usize = 0;
        while k < shown.len()
            invariant
                k <= shown@.len(),
                shown@ == self.boxes(),
                fields == self.panel_fields.deep_view(),
                labels == label_columns(fields, fields.len()),
                want == self.boxes_at(line),
                out@ == want.take(k as int),
                button == button_among(line, shown@, fields, k as nat),
                forall|i: int|
                    0 <= i < shown@.len() ==> (#[trigger] shown@[i]) < self.panel_fields@.len(),
                forall|i: int|
                    0 <= i < out@.len() ==> (#[trigger] out@[i]).0 < self.panel_fields@.len(),
            decreases shown@.len() - k,
        {
            let number: usize = shown[k];
            let field: &PanelField = &self.panel_fields[number];
            proof {
                assert(fields[number as int] == field.deep_view());
            }
            let down: u16 = if k >= 65535 {
                65535
            } else {
                k as u16
            };
            let own: Rect = Rect { y: line.y.saturating_add(1).saturating_add(down), ..line };
            let rest: Rect = own.clip_left(labels.saturating_add(2));
            let mut input: Rect = rest;
            proof {
                assert(own == box_line(line, k as int));
                assert(rest == own.spec_clip_left(labels + 2));
            }
            if let Some(label) = field.button {
                let mut text: Vec<char> = Vec::new();
                append_str(&mut text, " \u{23ce} ");
                append_str(&mut text, label);
                append_str(&mut text, " ");
                proof {
                    assert(text@ =~= button_text(label@));
                }
                let width: u16 = if text.len() > 65535 {
                    65535
                } else {
                    text.len() as u16
                };
                button =
                Some(
                    Rect::new(
                        own.right().saturating_sub(width.saturating_add(1)),
                        own.y,
                        width,
                        1,
                    ),
                );
                input = rest.clip_right(width.saturating_add(2));
                proof {
                    assert(own.spec_right() <= 65535);
                    assert(input == rest.spec_clip_right(width + 2));
                }
            }
            out.push((number, input));
            k = k + 1;
            proof {
                assert(out@ =~= want.take(k as int));
            }
        }
        proof {
            assert(out@ =~= want);
        }
        (out, button)
    }

    fn first_of_page(cursor: u32, rows: u32) -> (r: u32)
        ensures
            r == Picker::page_start(cursor, rows as int),
            r <= cursor,
    {
        let page: u32 = if rows > 1 {
            rows
        } else {
            1
        };
        let into: u32 = cursor % page;
        proof {
            vstd::arithmetic::div_mod::lemma_mod_decreases(cursor as nat, page as nat);
        }
        cursor - into
    }

    fn list_suffix(&self, running: bool, matched: u32, items: u32) -> (r: Vec<String>)
        ensures
            r.deep_view() == self.suffix_items(running, matched, items),
            r@.len() >= self.panel_toggles@.len() + 1,
    {
        let mut behind: Vec<String> = list_warnings(&self.panel_toggles, &self.panel_fields);
        put_switches(&mut behind, &self.panel_toggles);
        let ghost before = behind.deep_view();
        behind.push(count_text(running, matched, items));
        proof {
            assert(behind.deep_view() =~= before + seq![counted(running, matched, items)]);
            assert(behind@.len() == behind.deep_view().len());
        }
        behind
    }

    fn write_title(&self) -> (r: Option<String>)
        ensures
            r.deep_view() == (match self.title {
                Some(title) => Some(titled(title@)),
                None => None,
            }),
    {
        match &self.title {
            Some(title) => {
                let mut text: Vec<char> = Vec::new();
                append_str(&mut text, " ");
                append_str(&mut text, title.as_str());
                append_str(&mut text, " ");
                proof {
                    assert(text@ =~= titled(title@));
                }
                Some(string(text.as_slice()))
            },
            None => None,
        }
    }

    /// Lays the picker out in a part of the screen, of which `matched` of `items` rows match
    /// what is typed; `changed` says that they have changed since, and `running` that more
    /// may come. Remembers where everything was drawn.
    #[verifier::rlimit(40)]
    pub fn lay_out(
        &mut self,
        area: Rect,
        matched: u32,
        items: u32,
        changed: bool,
        running: bool,
    ) -> (r: PickerLayout)
        requires
            old(self).wf(),
            area.fits(),
        ensures
            final(self).wf(),
            ({
                let line = Picker::input_line(area);
                let behind = old(self).suffix_items(running, matched, items);
                let width = capped_cell(taken(behind, behind.len()) as int);
                let x = less(line.spec_right() as int, width as int) as u16;
                let cursor = old(self).cursor_among(changed, matched);
                let rows = old(self).room(area);
                let start = Picker::page_start(cursor, rows);
                &&& r.title.deep_view() == (match old(self).title {
                    Some(title) => Some(titled(title@)),
                    None => None,
                })
                &&& r.hint@ == hint_from(
                    old(self).hint.deep_view(),
                    0,
                    Seq::empty(),
                    less(area.width as int, 4),
                )
                &&& r.suffix.deep_view() == behind
                &&& r.suffix_columns@ == suffix_columns(behind, x)
                &&& r.label_width == label_columns(
                    old(self).panel_fields.deep_view(),
                    old(self).panel_fields@.len(),
                )
                &&& r.separator == capped_cell(
                    area.spec_inside_border().y + old(self).input_lines(),
                )
                &&& r.table == old(self).table_area(area)
                &&& r.selected == cursor - start
                &&& r.end == min(min(start + rows, u32::MAX as int), matched as int)
                &&& final(self).toggle_areas@ == old(self).switches_at(line, behind, x)
                &&& final(self).field_areas@ == old(self).boxes_at(line)
                &&& final(self).button_area == button_among(
                    line,
                    old(self).boxes(),
                    old(self).panel_fields.deep_view(),
                    old(self).boxes().len(),
                )
                &&& *final(self) == (Picker {
                    cursor,
                    query_area: line.spec_clip_right(width as int),
                    rows_area: old(self).table_area(area).spec_clip_top(
                        old(self).header_rows() as int,
                    ),
                    rows_offset: start as u32,
                    toggle_areas: final(self).toggle_areas,
                    field_areas: final(self).field_areas,
                    button_area: final(self).button_area,
                    ..*old(self)
                })
            }),
    {
        let cursor: u32 = if changed && self.cursor > matched.saturating_sub(1) {
            matched.saturating_sub(1)
        } else {
            self.cursor
        };
        let inner: Rect = area.inside_border();
        let title: Option<String> = self.write_title();
        let hint: String = hint_text(&self.hint, area.width.saturating_sub(4));
        let behind: Vec<String> = self.list_suffix(running, matched, items);
        let line: Rect = Rect { height: 1, ..inner.clip_left(1) };
        let width: u16 = suffix_width(&behind);
        let x: u16 = line.right().saturating_sub(width);
        let columns: Vec<u16> = place_suffix(&behind, x);
        let switches: Vec<Rect> = self.place_switches(line, &behind, &columns, x);
        let labels: u16 = widest_label(&self.panel_fields);
        let (boxes, button): (Vec<(usize, Rect)>, Option<Rect>) = self.place_boxes(line, labels);
        let lines: u16 = if boxes.len() >= 65535 {
            65535
        } else {
            1 + boxes.len() as u16
        };
        let table: Rect = inner.clip_top(lines.saturating_add(1));
        let header: u16 = self.header_height();
        let rows: u32 = table.height.saturating_sub(header) as u32;
        let start: u32 = Picker::first_of_page(cursor, rows);
        let after: u32 = start.saturating_add(rows);
        let end: u32 = if after < matched {
            after
        } else {
            matched
        };
        proof {
            assert(line == Picker::input_line(area));
            assert(lines == self.input_lines());
            assert(table == self.table_area(area));
        }
        self.cursor = cursor;
        self.query_area = line.clip_right(width);
        self.toggle_areas = switches;
        self.field_areas = boxes;
        self.button_area = button;
        self.rows_area = table.clip_top(header);
        self.rows_offset = start;
        PickerLayout {
            title,
            hint,
            suffix: behind,
            suffix_columns: columns,
            label_width: labels,
            separator: inner.y.saturating_add(lines),
            table,
            selected: cursor - start,
            end,
        }
    }

    /// Takes the height there is: what the rows get of it is a page.
    pub fn required_size(&mut self, width: u16, height: u16) -> (r: (u16, u16))
        ensures
            r == (width, height),
            *final(self) == (Picker {
                completion_height: less(
                    height as int,
                    3 + (1 + old(self).boxes().len()) + old(self).header_rows(),
                ) as u16,
                ..*old(self)
            }),
    {
        let shown: usize = shown_fields(&self.panel_fields, &self.panel_toggles).len();
        let header: u16 = self.header_height();
        let lines: u16 = if shown >= 65535 {
            65535
        } else {
            1 + shown as u16
        };
        self.completion_height = height.saturating_sub(
            lines.saturating_add(3).saturating_add(header),
        );
        (width, height)
    }
}

// ---------------------------------------------------------------------------------------
// The styles
// ---------------------------------------------------------------------------------------

/// What a picker is drawn in.
#[derive(Debug, Clone, Copy, PartialEq, Eq, Structural)]
pub struct PickerStyles {
    /// What the picker's part of the screen is cleared with.
    pub background: Style,
    /// The title, the line of help, the match count and the rows.
    pub text: Style,
    /// The row in focus.
    pub selected: Style,
    /// What was matched in a row.
    pub matched: Style,
    /// A switch that is on.
    pub on: Style,
    /// A switch that is off, and the labels of the boxes.
    pub off: Style,
    pub button: Style,
    pub warning: Style,
    /// The line under the inputs.
    pub separator: Style,
    /// The row of the columns' names, a name, and the one being typed for.
    pub header: Style,
    pub header_column: Style,
    pub header_active: Style,
}

/// What a switch that is on is drawn in. It wears the mode badge's colour, which every theme
/// that has one makes read in light and dark alike; a theme without it gets reversed, which
/// always reads.
pub open spec fn on_style(theme: ThemeStyles) -> Style {
    match theme.found("ui.statusline.normal"@) {
        Some(style) => style,
        None => theme.style("ui.text"@).spec_add_modifier(
            Modifiers { reversed: true, ..Modifiers::spec_none() },
        ),
    }
}

pub fn picker_styles(theme: &ThemeStyles) -> (r: PickerStyles)
    ensures
        r == (PickerStyles {
            background: theme.style("ui.background"@),
            text: theme.style("ui.text"@),
            selected: theme.style("ui.text.focus"@),
            matched: theme.style("special"@).spec_bold(),
            on: on_style(*theme),
            off: theme.style("ui.text"@).spec_add_modifier(
                Modifiers { dim: true, ..Modifiers::spec_none() },
            ),
            button: theme.style("ui.statusline"@),
            warning: theme.style("warning"@),
            separator: theme.style("ui.background.separator"@),
            header: theme.style("ui.picker.header"@),
            header_column: theme.style("ui.picker.header.column"@),
            header_active: theme.style("ui.picker.header.column.active"@),
        }),
{
    let text: Style = theme.get("ui.text");
    let on: Style = match theme.try_get("ui.statusline.normal") {
        Some(style) => style,
        None => text.add_modifier(Modifiers { reversed: true, ..Modifiers::none() }),
    };
    PickerStyles {
        background: theme.get("ui.background"),
        text,
        selected: theme.get("ui.text.focus"),
        matched: theme.get("special").bold(),
        on,
        off: text.add_modifier(Modifiers { dim: true, ..Modifiers::none() }),
        button: theme.get("ui.statusline"),
        warning: theme.get("warning"),
        separator: theme.get("ui.background.separator"),
        header: theme.get("ui.picker.header"),
        header_column: theme.get("ui.picker.header.column"),
        header_active: theme.get("ui.picker.header.column.active"),
    }
}

impl PickerStyles {
    /// What a switch is drawn in: two states a glance must tell apart.
    pub open spec fn of_switch(self, on: bool) -> Style {
        if on {
            self.on
        } else {
            self.off
        }
    }

    /// What the name above a column is drawn in.
    pub fn column_name(&self, active: bool) -> (r: Style)
        ensures
            r == if active {
                self.header_active
            } else {
                self.header_column
            },
    {
        if active {
            self.header_active
        } else {
            self.header_column
        }
    }
}

impl Picker {
    /// What each of the items behind the query line is drawn in: the warnings, the switches,
    /// the count.
    pub open spec fn styles_behind(self, styles: PickerStyles) -> Seq<Style> {
        let warned = warnings(
            self.panel_toggles.deep_view(),
            self.panel_fields.deep_view(),
            self.panel_toggles@.len(),
        );
        Seq::new(warned.len(), |i: int| styles.warning) + Seq::new(
            self.panel_toggles@.len(),
            |i: int| styles.of_switch(self.panel_toggles@[i].on),
        ) + seq![styles.text]
    }

    /// What each of the items behind the query line is drawn in, one for each.
    pub fn suffix_styles(&self, styles: PickerStyles) -> (r: Vec<Style>)
        ensures
            r@ == self.styles_behind(styles),
            forall|running: bool, matched: u32, items: u32| #[trigger]
                self.suffix_items(running, matched, items).len() == r@.len(),
    {
        let warned: Vec<String> = list_warnings(&self.panel_toggles, &self.panel_fields);
        let mut out: Vec<Style> = Vec::new();
        let mut n: usize = 0;
        while n < warned.len()
            invariant
                n <= warned@.len(),
                out@ == Seq::new(n as nat, |i: int| styles.warning),
            decreases warned@.len() - n,
        {
            out.push(styles.warning);
            n = n + 1;
            proof {
                assert(out@ =~= Seq::new(n as nat, |i: int| styles.warning));
            }
        }
        let ghost before = out@;
        let mut k: usize = 0;
        proof {
            assert(warned@.len() == warned.deep_view().len());
            assert(out@ =~= before + Seq::new(
                0,
                |i: int| styles.of_switch(self.panel_toggles@[i].on),
            ));
        }
        while k < self.panel_toggles.len()
            invariant
                k <= self.panel_toggles@.len(),
                out@ == before + Seq::new(
                    k as nat,
                    |i: int| styles.of_switch(self.panel_toggles@[i].on),
                ),
            decreases self.panel_toggles@.len() - k,
        {
            let style: Style = if self.panel_toggles[k].on {
                styles.on
            } else {
                styles.off
            };
            out.push(style);
            k = k + 1;
            proof {
                assert(out@ =~= before + Seq::new(
                    k as nat,
                    |i: int| styles.of_switch(self.panel_toggles@[i].on),
                ));
            }
        }
        out.push(styles.text);
        proof {
            assert(out@ =~= self.styles_behind(styles));
        }
        out
    }
}

// ---------------------------------------------------------------------------------------
// The cursor
// ---------------------------------------------------------------------------------------

/// Where the text cursor goes.
#[derive(Debug, Clone, Copy, PartialEq, Eq)]
pub enum PickerCursor {
    /// A block on a cell, by row and column: on a switch it sits on the label, so "where am
    /// I" is answered by the same thing everywhere. None where it was not drawn.
    OnSwitch(Option<(u16, u32)>),
    /// Where the query line has it.
    InQuery(Rect),
    /// Where a box has it, by its number.
    InField(usize, Rect),
    Hidden,
}

impl Picker {
    /// Where a box was first drawn, from the `k`-th on.
    pub open spec fn box_drawn(self, number: usize, k: int) -> Option<Rect>
        decreases self.field_areas@.len() - k,
    {
        if k >= self.field_areas@.len() {
            None
        } else if self.field_areas@[k].0 == number {
            Some(self.field_areas@[k].1)
        } else {
            self.box_drawn(number, k + 1)
        }
    }

    /// Where the text cursor goes in a picker drawn in a part of the screen.
    pub fn cursor(&self, area: Rect) -> (r: PickerCursor)
        ensures
            r == match self.focus {
                Focus::Toggle(index) => PickerCursor::OnSwitch(
                    if index < self.toggle_areas@.len() {
                        let drawn = self.toggle_areas@[index as int];
                        Some((drawn.y, (drawn.x + 1) as u32))
                    } else {
                        None
                    },
                ),
                Focus::Field(index) => match self.box_drawn(index, 0) {
                    Some(drawn) => PickerCursor::InField(index, drawn),
                    None => PickerCursor::Hidden,
                },
                Focus::Query => PickerCursor::InQuery(
                    Rect { width: self.list_columns(area), ..Picker::input_line(area) },
                ),
            },
    {
        match self.focus {
            Focus::Toggle(index) => {
                if index < self.toggle_areas.len() {
                    let drawn: Rect = self.toggle_areas[index];
                    PickerCursor::OnSwitch(Some((drawn.y, drawn.x as u32 + 1)))
                } else {
                    PickerCursor::OnSwitch(None)
                }
            },
            Focus::Field(index) => {
                let mut k: usize = 0;
                while k < self.field_areas.len()
                    invariant
                        k <= self.field_areas@.len(),
                        self.focus == Focus::Field(index),
                        self.box_drawn(index, 0) == self.box_drawn(index, k as int),
                    decreases self.field_areas@.len() - k,
                {
                    if self.field_areas[k].0 == index {
                        return PickerCursor::InField(index, self.field_areas[k].1);
                    }
                    k = k + 1;
                }
                PickerCursor::Hidden
            },
            Focus::Query => {
                let line: Rect = area.inside_border().clip_left(1);
                PickerCursor::InQuery(Rect { width: self.list_width(area), height: 1, ..line })
            },
        }
    }
}

// ---------------------------------------------------------------------------------------
// Laws
// ---------------------------------------------------------------------------------------

/// The row in focus is on the page that is drawn, wherever there is room for a row.
pub proof fn the_row_in_focus_is_drawn(cursor: u32, rows: int)
    requires
        rows > 0,
    ensures
        Picker::page_start(cursor, rows) <= cursor < Picker::page_start(cursor, rows) + rows,
{
}

/// The items behind the query line stand apart: each begins one column behind the end of the
/// one before it.
pub proof fn suffix_items_stand_apart(items: Seq<Seq<char>>, k: int)
    requires
        0 < k < items.len(),
    ensures
        taken(items, k as nat) == taken(items, (k - 1) as nat) + items[k - 1].len() + SUFFIX_GAP,
{
}

/// A hint is never wider than the room it has.
pub proof fn a_hint_fits(items: Seq<Seq<char>>, k: int, hint: Seq<char>, width: int)
    requires
        hint.len() <= width,
    ensures
        hint_from(items, k, hint, width).len() <= width,
    decreases items.len() - k,
{
    if k < items.len() && hint_with(hint, items[k]).len() <= width {
        a_hint_fits(items, k + 1, hint_with(hint, items[k]), width);
    }
}

} // verus!
