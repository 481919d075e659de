//! The picker itself: its rows, its focus ring and its switches.

use crate::graphics::{capped_cell, count_letters, less, min, Rect};
use crate::input::{KeyCode, KeyEvent, KeyModifiers};
use crate::picker::panel::{field_shown, fields_shown, is_shown, shown_fields, Column, ColumnView,
    FieldView, PanelField, PanelToggle, ToggleView};
use crate::text::same_str;
use vstd::prelude::*;

verus! {

/// Two clicks on the same row closer than this, in milliseconds, are a double click: the
/// terminal reports each press on its own, so the picker has to tell them apart itself.
pub const DOUBLE_CLICK: u64 = 500;

pub const MIN_AREA_WIDTH_FOR_PREVIEW: u16 = 72;

/// Biggest file size to preview in bytes.
pub const MAX_FILE_SIZE_FOR_PREVIEW: u64 = 10485760;

/// A picker with more items than this is not kept to be opened again: it takes too much
/// memory.
pub const MAX_ITEMS_TO_KEEP: u32 = 1000000;

#[derive(Debug, Clone, Copy, PartialEq, Eq, Structural)]
pub enum Direction {
    Forward,
    Backward,
}

/// Where the focus ring is. Tab walks it in this order: the query line, the boxes under
/// it, then the switches.
#[derive(Debug, Clone, Copy, PartialEq, Eq, Structural)]
pub enum Focus {
    Query,
    Field(usize),
    Toggle(usize),
}

/// The wheel's scroll of the preview, and the row it was given on.
#[derive(Debug, Clone, Copy, PartialEq, Eq, Structural)]
pub struct PreviewScroll {
    pub row: u32,
    pub lines: i64,
}

#[derive(Debug)]
pub struct Picker {
    pub columns: Vec<Column>,
    pub primary_column: usize,
    /// Counts up each time the picker is closed, so what streams into it stops.
    pub version: usize,
    /// Current height of the completions box.
    pub completion_height: u16,
    pub cursor: u32,
    /// Switches drawn at the right end of the query line. Empty for an ordinary picker.
    pub panel_toggles: Vec<PanelToggle>,
    /// Text boxes drawn one per line under the query line.
    pub panel_fields: Vec<PanelField>,
    pub focus: Focus,
    /// Where each switch was last drawn, so the cursor can sit on the focused one and a
    /// click can find it.
    pub toggle_areas: Vec<Rect>,
    /// Where the query line and each box on screen were last drawn, for the cursor and for
    /// a click that lands on one of them. A box is known by its number.
    pub query_area: Rect,
    pub field_areas: Vec<(usize, Rect)>,
    /// Where a box's button was last drawn.
    pub button_area: Option<Rect>,
    /// Where the result rows were last drawn and which match the first of them is, so a
    /// click can be turned back into the row it landed on.
    pub rows_area: Rect,
    pub rows_offset: u32,
    /// The row last clicked and when, so a second click on it opens it.
    pub last_click: Option<(u32, u64)>,
    /// Where the preview was last drawn, empty while there is none, so the wheel over it
    /// scrolls the preview and not the list.
    pub preview_area: Rect,
    /// How far the wheel moved the preview from where the row put it. It is the row's:
    /// another row starts where its own match is.
    pub preview_scroll: PreviewScroll,
    /// Whether there is anything `Alt-a` and a box's button do.
    pub has_action: bool,
    /// A line of help drawn on the bottom border, for what the picker cannot show on its
    /// own.
    pub hint: Vec<&'static str>,
    /// Whether there is somewhere wider to look with the query.
    pub has_widen: bool,
    pub title: Option<String>,
    /// Whether to show the preview panel.
    pub show_preview: bool,
    /// Whether there is anything to preview.
    pub has_preview: bool,
    pub truncate_start: bool,
    /// The widths of the columns.
    pub widths: Vec<u16>,
}

/// The width a column starts with: its name's, and none for a hidden one.
pub open spec fn first_width(column: ColumnView) -> u16 {
    if column.hidden {
        0
    } else {
        capped_cell(column.name.len() as int)
    }
}

impl Picker {
    /// Every stop of the focus ring is there, and so is what was drawn.
    pub open spec fn wf(self) -> bool {
        &&& self.primary_column < self.columns@.len()
        &&& match self.focus {
            Focus::Query => true,
            Focus::Field(index) => index < self.panel_fields@.len(),
            Focus::Toggle(index) => index < self.panel_toggles@.len(),
        }
        &&& self.toggle_areas@.len() <= self.panel_toggles@.len()
        &&& forall|i: int|
            0 <= i < self.field_areas@.len() ==> (#[trigger] self.field_areas@[i]).0
                < self.panel_fields@.len()
        &&& self.rows_area.fits()
    }

    /// A picker of columns, matched by the one what is typed is for.
    pub fn new(columns: Vec<Column>, primary_column: usize) -> (r: Picker)
        requires
            primary_column < columns@.len(),
        ensures
            r.wf(),
            r.columns == columns,
            r.primary_column == primary_column,
            r.cursor == 0,
            r.focus == Focus::Query,
            r.panel_toggles@.len() == 0,
            r.panel_fields@.len() == 0,
            r.show_preview && !r.has_preview && r.truncate_start && !r.has_action && !r.has_widen,
            r.hint@.len() == 0,
            r.title is None,
            r.widths@ == columns.deep_view().map_values(|column: ColumnView| first_width(column)),
    {
        let mut widths: Vec<u16> = Vec::new();
        let ghost want = columns.deep_view().map_values(|column: ColumnView| first_width(column));
        let mut n: usize = 0;
        while n < columns.len()
            invariant
                n <= columns@.len(),
                widths@.len() == n,
                forall|i: int|
                    0 <= i < n ==> #[trigger] widths@[i] == first_width(columns@[i].deep_view()),
            decreases columns@.len() - n,
        {
            let width: u16 = if columns[n].hidden {
                0
            } else {
                count_letters(columns[n].name.as_str())
            };
            widths.push(width);
            n = n + 1;
        }
        proof {
            assert(widths@ =~= want);
        }
        Picker {
            columns,
            primary_column,
            version: 0,
            completion_height: 0,
            cursor: 0,
            panel_toggles: Vec::new(),
            panel_fields: Vec::new(),
            focus: Focus::Query,
            toggle_areas: Vec::new(),
            query_area: Rect::new(0, 0, 0, 0),
            field_areas: Vec::new(),
            button_area: None,
            rows_area: Rect::new(0, 0, 0, 0),
            rows_offset: 0,
            last_click: None,
            preview_area: Rect::new(0, 0, 0, 0),
            preview_scroll: PreviewScroll { row: 0, lines: 0 },
            has_action: false,
            hint: Vec::new(),
            has_widen: false,
            title: None,
            show_preview: true,
            has_preview: false,
            truncate_start: true,
            widths,
        }
    }

    pub fn truncate_start(self, truncate_start: bool) -> (r: Picker)
        ensures
            r == (Picker { truncate_start, ..self }),
    {
        Picker { truncate_start, ..self }
    }

    /// Shows what the row in focus stands for beside the list.
    pub fn with_preview(self) -> (r: Picker)
        ensures
            r == (Picker { has_preview: true, ..self }),
    {
        Picker { has_preview: true, ..self }
    }

    pub fn with_initial_cursor(self, cursor: u32) -> (r: Picker)
        ensures
            r == (Picker { cursor, ..self }),
    {
        Picker { cursor, ..self }
    }

    /// Switches drawn at the right end of the query line, flipped with `Alt` + the switch's
    /// own key. Flipping one refreshes a dynamic query.
    pub fn with_toggles(self, toggles: Vec<PanelToggle>) -> (r: Picker)
        ensures
            r == (Picker { panel_toggles: toggles, ..self }),
    {
        Picker { panel_toggles: toggles, ..self }
    }

    /// Text boxes under the query line, one per line.
    pub fn with_fields(self, fields: Vec<PanelField>) -> (r: Picker)
        ensures
            r == (Picker { panel_fields: fields, ..self }),
    {
        Picker { panel_fields: fields, ..self }
    }

    /// There is something `Alt-a` runs over every result on screen.
    pub fn with_panel_action(self) -> (r: Picker)
        ensures
            r == (Picker { has_action: true, ..self }),
    {
        Picker { has_action: true, ..self }
    }

    /// What the picker is, drawn on its top border.
    pub fn with_title(self, title: String) -> (r: Picker)
        ensures
            r == (Picker { title: Some(title), ..self }),
    {
        Picker { title: Some(title), ..self }
    }

    /// Ctrl-f (Cmd-f) closes the picker and hands its query on, when `enabled`.
    pub fn with_widen(self, enabled: bool) -> (r: Picker)
        ensures
            r == (Picker { has_widen: self.has_widen || enabled, ..self }),
    {
        Picker { has_widen: self.has_widen || enabled, ..self }
    }

    pub fn with_hint(self, hint: Vec<&'static str>) -> (r: Picker)
        ensures
            r == (Picker { hint, ..self }),
    {
        Picker { hint, ..self }
    }

    // -----------------------------------------------------------------------------------
    // The row in focus
    // -----------------------------------------------------------------------------------

    /// The row in focus once it has moved by `amount` of `len` rows: round the ends, none
    /// where there is no row.
    pub open spec fn moved(self, amount: u32, direction: Direction, len: u32) -> u32 {
        if len == 0 {
            self.cursor
        } else {
            match direction {
                Direction::Forward => (min(self.cursor + amount, u32::MAX as int)
                    % len as int) as u32,
                Direction::Backward => (less(
                    min(self.cursor + len, u32::MAX as int),
                    amount as int,
                ) % len as int) as u32,
            }
        }
    }

    /// Moves the focus by a number of rows, either down (`Forward`) or up (`Backward`); `len`
    /// is how many rows there are.
    pub fn move_by(&mut self, amount: u32, direction: Direction, len: u32)
        ensures
            *final(self) == (Picker {
                cursor: old(self).moved(amount, direction, len),
                ..*old(self)
            }),
    {
        if len == 0 {
            return ;
        }
        match direction {
            Direction::Forward => {
                self.cursor = self.cursor.saturating_add(amount) % len;
            },
            Direction::Backward => {
                self.cursor = self.cursor.saturating_add(len).saturating_sub(amount) % len;
            },
        }
    }

    /// Moves up by exactly one page. Before the first page comes the last page.
    pub fn page_up(&mut self, len: u32)
        ensures
            *final(self) == (Picker {
                cursor: old(self).moved(
                    old(self).completion_height as u32,
                    Direction::Backward,
                    len,
                ),
                ..*old(self)
            }),
    {
        let page: u32 = self.completion_height as u32;
        self.move_by(page, Direction::Backward, len);
    }

    /// Moves down by exactly one page. After the last page comes the first page.
    pub fn page_down(&mut self, len: u32)
        ensures
            *final(self) == (Picker {
                cursor: old(self).moved(
                    old(self).completion_height as u32,
                    Direction::Forward,
                    len,
                ),
                ..*old(self)
            }),
    {
        let page: u32 = self.completion_height as u32;
        self.move_by(page, Direction::Forward, len);
    }

    /// Moves to the first row.
    pub fn to_start(&mut self)
        ensures
            *final(self) == (Picker { cursor: 0, ..*old(self) }),
    {
        self.cursor = 0;
    }

    /// Moves to the last row.
    pub fn to_end(&mut self, len: u32)
        ensures
            *final(self) == (Picker { cursor: less(len as int, 1) as u32, ..*old(self) }),
    {
        self.cursor = len.saturating_sub(1);
    }

    // -----------------------------------------------------------------------------------
    // The focus ring
    // -----------------------------------------------------------------------------------

    /// The boxes on screen, by number.
    pub open spec fn boxes(self) -> Seq<usize> {
        fields_shown(
            self.panel_fields.deep_view(),
            self.panel_toggles.deep_view(),
            self.panel_fields@.len(),
        )
    }

    /// The stops of the focus ring: the query line, each box on screen, each switch.
    pub open spec fn stops(self) -> Seq<Focus> {
        seq![Focus::Query] + self.boxes().map_values(|index: usize| Focus::Field(index)) + Seq::new(
            self.panel_toggles@.len(),
            |index: int| Focus::Toggle(index as usize),
        )
    }

    /// Where the focus stands on the ring, the query line where it is nowhere on it.
    pub open spec fn stop_at(self, k: int) -> int
        decreases self.stops().len() - k,
    {
        if k >= self.stops().len() {
            0
        } else if self.stops()[k] == self.focus {
            k
        } else {
            self.stop_at(k + 1)
        }
    }

    /// The focus one stop on, or back.
    pub open spec fn next_stop(self, direction: Direction) -> Focus {
        let count = self.stops().len() as int;
        self.stops()[match direction {
            Direction::Forward => (self.stop_at(0) + 1) % count,
            Direction::Backward => (self.stop_at(0) + count - 1) % count,
        }]
    }

    fn list_stops(&self) -> (r: Vec<Focus>)
        ensures
            r@ == self.stops(),
            r@.len() > 0,
    {
        let boxes: Vec<usize> = shown_fields(&self.panel_fields, &self.panel_toggles);
        let mut stops: Vec<Focus> = Vec::new();
        stops.push(Focus::Query);
        let mut n: usize = 0;
        let ghost fields = self.boxes().map_values(|index: usize| Focus::Field(index));
        proof {
            assert(stops@ =~= seq![Focus::Query] + fields.take(0));
        }
        while n < boxes.len()
            invariant
                n <= boxes@.len(),
                boxes@ == self.boxes(),
                fields == self.boxes().map_values(|index: usize| Focus::Field(index)),
                stops@ == seq![Focus::Query] + fields.take(n as int),
            decreases boxes@.len() - n,
        {
            stops.push(Focus::Field(boxes[n]));
            n = n + 1;
            proof {
                assert(stops@ =~= seq![Focus::Query] + fields.take(n as int));
            }
        }
        let ghost before = stops@;
        let ghost toggles = Seq::new(
            self.panel_toggles@.len(),
            |index: int| Focus::Toggle(index as usize),
        );
        let mut n: usize = 0;
        proof {
            assert(fields.take(boxes@.len() as int) =~= fields);
            assert(before + toggles.take(0) =~= before);
        }
        while n < self.panel_toggles.len()
            invariant
                n <= self.panel_toggles@.len(),
                toggles == Seq::new(
                    self.panel_toggles@.len(),
                    |index: int| Focus::Toggle(index as usize),
                ),
                stops@ == before + toggles.take(n as int),
            decreases self.panel_toggles@.len() - n,
        {
            stops.push(Focus::Toggle(n));
            n = n + 1;
            proof {
                assert(stops@ =~= before + toggles.take(n as int));
            }
        }
        proof {
            assert(toggles.take(n as int) =~= toggles);
            assert(stops@ =~= self.stops());
        }
        stops
    }

    /// Moves the focus ring: the query line, each box on screen, each switch, then back.
    pub fn focus_by(&mut self, direction: Direction)
        requires
            old(self).panel_toggles@.len() + old(self).panel_fields@.len() < usize::MAX / 2,
        ensures
            *final(self) == (Picker { focus: old(self).next_stop(direction), ..*old(self) }),
            old(self).wf() ==> final(self).wf(),
    {
        let stops: Vec<Focus> = self.list_stops();
        let count: usize = stops.len();
        proof {
            lemma_boxes(*self);
        }
        let mut at: usize = 0;
        let mut k: usize = 0;
        let mut searching: bool = true;
        while k < stops.len() && searching
            invariant
                k <= stops@.len(),
                stops@ == self.stops(),
                searching ==> at == 0 && self.stop_at(0) == self.stop_at(k as int),
                !searching ==> at == self.stop_at(0) && at < stops@.len(),
                stops@.len() > 0,
            decreases stops@.len() - k + (if searching {
                1int
            } else {
                0
            }),
        {
            if stops[k] == self.focus {
                at = k;
                searching = false;
            } else {
                k = k + 1;
            }
        }
        let next: usize = match direction {
            Direction::Forward => (at + 1) % count,
            Direction::Backward => (at + count - 1) % count,
        };
        proof {
            lemma_boxes_rise(
                self.panel_fields.deep_view(),
                self.panel_toggles.deep_view(),
                self.panel_fields@.len(),
            );
            assert(0 < next <= self.boxes().len() ==> stops@[next as int] == Focus::Field(
                self.boxes()[next - 1],
            ));
        }
        self.focus = stops[next];
    }

    /// The first switch from `k` on with a key, by number; or the end.
    pub open spec fn switch_keyed(self, k: int, key: char) -> int
        decreases self.panel_toggles@.len() - k,
    {
        if k >= self.panel_toggles@.len() {
            self.panel_toggles@.len() as int
        } else if self.panel_toggles@[k].key == key {
            k
        } else {
            self.switch_keyed(k + 1, key)
        }
    }

    /// The switch that Alt and a key flips.
    pub open spec fn switch_for(self, key: KeyEvent) -> Option<int> {
        match key.code {
            KeyCode::Char(c) => if key.modifiers == (KeyModifiers {
                alt: true,
                ..KeyModifiers::spec_none()
            }) && self.switch_keyed(0, c) < self.panel_toggles@.len() {
                Some(self.switch_keyed(0, c))
            } else {
                None
            },
            _ => None,
        }
    }

    pub(crate) fn panel_toggle_at(&self, key: KeyEvent) -> (r: Option<usize>)
        ensures
            match r {
                Some(index) => self.switch_for(key) == Some(index as int) && index
                    < self.panel_toggles@.len(),
                None => self.switch_for(key) is None,
            },
    {
        if !key.modifiers.alt || key.modifiers.control || key.modifiers.shift
            || key.modifiers.meta {
            return None;
        }
        let pressed: char = match key.code {
            KeyCode::Char(c) => c,
            _ => {
                return None;
            },
        };
        let mut k: usize = 0;
        while k < self.panel_toggles.len()
            invariant
                k <= self.panel_toggles@.len(),
                key.code == KeyCode::Char(pressed),
                key.modifiers == (KeyModifiers { alt: true, ..KeyModifiers::spec_none() }),
                self.switch_keyed(0, pressed) == self.switch_keyed(k as int, pressed),
            decreases self.panel_toggles@.len() - k,
        {
            if self.panel_toggles[k].key == pressed {
                return Some(k);
            }
            k = k + 1;
        }
        None
    }

    /// The switches with one of them flipped.
    pub open spec fn flipped(self, index: int) -> Seq<PanelToggle> {
        self.panel_toggles@.update(
            index,
            PanelToggle { on: !self.panel_toggles@[index].on, ..self.panel_toggles@[index] },
        )
    }

    /// Whether a switch shows boxes.
    pub open spec fn shows_boxes(self, index: int) -> bool {
        exists|i: int|
            0 <= i < self.panel_fields@.len() && (#[trigger] self.panel_fields@[i].deep_view())
                .shown_by == Some(self.panel_toggles@[index].name@)
    }

    /// Whether a picker is this one with a switch flipped. A box that has just been hidden
    /// can no longer hold the focus.
    pub open spec fn flips_to(self, index: int, after: Picker) -> bool {
        &&& after.panel_toggles@ == self.flipped(index)
        &&& after.focus == (match self.focus {
            Focus::Field(field) => if is_shown(
                self.panel_fields@[field as int].deep_view(),
                after.panel_toggles.deep_view(),
            ) {
                self.focus
            } else {
                Focus::Query
            },
            other => other,
        })
        &&& after == (Picker { panel_toggles: after.panel_toggles, focus: after.focus, ..self })
    }

    /// Flips a switch. A box that has just been hidden can no longer hold the focus. Answers
    /// whether a dynamic query has to be run again: a switch that only shows boxes changes
    /// no input the search reads.
    pub fn flip_toggle(&mut self, index: usize) -> (r: bool)
        requires
            old(self).wf(),
            index < old(self).panel_toggles@.len(),
        ensures
            old(self).flips_to(index as int, *final(self)),
            r == !old(self).shows_boxes(index as int),
            final(self).wf(),
    {
        let toggle: PanelToggle = self.panel_toggles[index];
        let flipped: PanelToggle = PanelToggle { on: !toggle.on, ..toggle };
        self.panel_toggles[index] = flipped;
        if let Focus::Field(field) = self.focus {
            if !field_shown(&self.panel_fields[field], &self.panel_toggles) {
                self.focus = Focus::Query;
            }
        }
        let mut k: usize = 0;
        while k < self.panel_fields.len()
            invariant
                k <= self.panel_fields@.len(),
                toggle == old(self).panel_toggles@[index as int],
                self.panel_fields == old(self).panel_fields,
                forall|i: int|
                    0 <= i < k ==> (#[trigger] self.panel_fields@[i].deep_view()).shown_by != Some(
                        toggle.name@,
                    ),
                old(self).flips_to(index as int, *self),
                self.wf(),
            decreases self.panel_fields@.len() - k,
        {
            if let Some(name) = self.panel_fields[k].shown_by {
                if same_str(name, toggle.name) {
                    proof {
                        assert(self.panel_fields@[k as int].deep_view().shown_by == Some(
                            toggle.name@,
                        ));
                    }
                    return false;
                }
            }
            k = k + 1;
        }
        true
    }
}

proof fn lemma_boxes(picker: Picker)
    ensures
        picker.boxes().len() <= picker.panel_fields@.len(),
{
    lemma_fields_shown(
        picker.panel_fields.deep_view(),
        picker.panel_toggles.deep_view(),
        picker.panel_fields@.len(),
    );
}

proof fn lemma_fields_shown(fields: Seq<FieldView>, toggles: Seq<ToggleView>, n: nat)
    ensures
        fields_shown(fields, toggles, n).len() <= n,
    decreases n,
{
    if n > 0 {
        lemma_fields_shown(fields, toggles, (n - 1) as nat);
    }
}

/// The row in focus is one there is, wherever it was moved.
pub proof fn the_focus_stays_on_a_row(picker: Picker, amount: u32, direction: Direction, len: u32)
    requires
        len > 0,
    ensures
        picker.moved(amount, direction, len) < len,
{
}

/// Moving down a row and up again comes back to the same row.
pub proof fn moving_down_and_up_comes_back(picker: Picker, len: u32)
    requires
        picker.cursor < len < u32::MAX / 2,
    ensures
        ({
            let down = Picker { cursor: picker.moved(1, Direction::Forward, len), ..picker };
            down.moved(1, Direction::Backward, len) == picker.cursor
        }),
{
    let n = len as int;
    let c = picker.cursor as int;
    if c + 1 < n {
        vstd::arithmetic::div_mod::lemma_small_mod((c + 1) as nat, n as nat);
        vstd::arithmetic::div_mod::lemma_mod_add_multiples_vanish(c, n);
        vstd::arithmetic::div_mod::lemma_small_mod(c as nat, n as nat);
    } else {
        vstd::arithmetic::div_mod::lemma_mod_self_0(n);
        vstd::arithmetic::div_mod::lemma_small_mod((n - 1) as nat, n as nat);
    }
}

proof fn lemma_boxes_rise(fields: Seq<FieldView>, toggles: Seq<ToggleView>, n: nat)
    requires
        n <= usize::MAX,
    ensures
        forall|i: int|
            0 <= i < fields_shown(fields, toggles, n).len() ==> (#[trigger] fields_shown(
                fields,
                toggles,
                n,
            )[i]) < n,
        forall|i: int, j: int|
            0 <= i < j < fields_shown(fields, toggles, n).len() ==> (#[trigger] fields_shown(
                fields,
                toggles,
                n,
            )[i]) < (#[trigger] fields_shown(fields, toggles, n)[j]),
    decreases n,
{
    if n > 0 {
        let m = (n - 1) as nat;
        lemma_boxes_rise(fields, toggles, m);
        let before = fields_shown(fields, toggles, m);
        let all = fields_shown(fields, toggles, n);
        assert forall|i: int| 0 <= i < all.len() implies (#[trigger] all[i]) < n by {
            if i < before.len() {
                assert(all[i] == before[i]);
            }
        }
        assert forall|i: int, j: int| 0 <= i < j < all.len() implies (#[trigger] all[i]) < (
        #[trigger] all[j]) by {
            assert(all[i] == before[i]);
            if j < before.len() {
                assert(all[j] == before[j]);
            }
        }
    }
}

proof fn lemma_stops_differ(picker: Picker, i: int, j: int)
    requires
        0 <= i < j < picker.stops().len(),
    ensures
        picker.stops()[i] != picker.stops()[j],
{
    let boxes = picker.boxes();
    let toggles = picker.panel_toggles.len();
    let fields = picker.panel_fields.len();
    assert(toggles == picker.panel_toggles@.len());
    assert(fields == picker.panel_fields@.len());
    lemma_boxes_rise(
        picker.panel_fields.deep_view(),
        picker.panel_toggles.deep_view(),
        picker.panel_fields@.len(),
    );
    let n = boxes.len() as int;
    if 0 < i && j <= n {
        assert(boxes[i - 1] < boxes[j - 1]);
    }
}

proof fn lemma_stop_at(picker: Picker, k: int, at: int)
    requires
        0 <= k <= at < picker.stops().len(),
        picker.stops()[at] == picker.focus,
    ensures
        picker.stop_at(k) == at,
    decreases at - k,
{
    if k < at {
        lemma_stops_differ(picker, k, at);
        lemma_stop_at(picker, k + 1, at);
    }
}

/// Walking the focus ring one stop on and one back comes back, and so does the other way
/// round.
pub proof fn walking_on_and_back_comes_back(picker: Picker, at: int)
    requires
        0 <= at < picker.stops().len(),
        picker.stops()[at] == picker.focus,
    ensures
        ({
            let on = Picker { focus: picker.next_stop(Direction::Forward), ..picker };
            let back = Picker { focus: picker.next_stop(Direction::Backward), ..picker };
            &&& on.next_stop(Direction::Backward) == picker.focus
            &&& back.next_stop(Direction::Forward) == picker.focus
        }),
{
    let count = picker.stops().len() as int;
    let on = Picker { focus: picker.next_stop(Direction::Forward), ..picker };
    let back = Picker { focus: picker.next_stop(Direction::Backward), ..picker };
    lemma_stop_at(picker, 0, at);
    assert(on.stops() =~= picker.stops());
    assert(back.stops() =~= picker.stops());
    let next = (at + 1) % count;
    let before = (at + count - 1) % count;
    vstd::arithmetic::div_mod::lemma_mod_bound(at + 1, count);
    vstd::arithmetic::div_mod::lemma_mod_bound(at + count - 1, count);
    if at + 1 < count {
        vstd::arithmetic::div_mod::lemma_small_mod((at + 1) as nat, count as nat);
        vstd::arithmetic::div_mod::lemma_mod_add_multiples_vanish(at, count);
        vstd::arithmetic::div_mod::lemma_small_mod(at as nat, count as nat);
        assert((next + count - 1) % count == at);
    } else {
        vstd::arithmetic::div_mod::lemma_mod_self_0(count);
        assert(next == 0);
        vstd::arithmetic::div_mod::lemma_small_mod((count - 1) as nat, count as nat);
        assert((next + count - 1) % count == at);
    }
    if at > 0 {
        vstd::arithmetic::div_mod::lemma_mod_add_multiples_vanish(at - 1, count);
        vstd::arithmetic::div_mod::lemma_small_mod((at - 1) as nat, count as nat);
        assert(before == at - 1);
        vstd::arithmetic::div_mod::lemma_small_mod(at as nat, count as nat);
    } else {
        vstd::arithmetic::div_mod::lemma_small_mod((count - 1) as nat, count as nat);
        assert(before == count - 1);
        vstd::arithmetic::div_mod::lemma_mod_self_0(count);
    }
    lemma_stop_at(on, 0, next);
    lemma_stop_at(back, 0, before);
}

/// A switch flipped twice is as it was.
pub proof fn a_switch_flipped_twice_is_as_it_was(picker: Picker, after: Picker, index: int)
    requires
        0 <= index < picker.panel_toggles@.len(),
        picker.flips_to(index, after),
    ensures
        after.flipped(index) == picker.panel_toggles@,
{
    assert(after.flipped(index) =~= picker.panel_toggles@);
}

} // verus!
