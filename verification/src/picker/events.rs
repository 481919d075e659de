//! What the keys and the mouse do to a picker.

use crate::graphics::{less, max, min, Rect};
use crate::input::{KeyCode, KeyEvent, KeyModifiers, MouseButton, MouseEvent, MouseEventKind};
use crate::picker::list::{Direction, Focus, Picker, PreviewScroll, DOUBLE_CLICK,
    MAX_ITEMS_TO_KEEP};
use crate::picker::panel::{asks_the_same, changes, pattern_changes, same_query, text_named,
    typed_text, Column, PanelField, PatternChange, Query};
use crate::settings::on_line;
use crate::text::{chars, replace, replaced, same_str, string};
use vstd::prelude::*;

verus! {

/// What is left to do outside once the picker has taken a key or a click.
#[derive(Debug, Clone, Copy, PartialEq, Eq, Structural)]
pub enum PickerTask {
    Nothing,
    /// Run a dynamic query again.
    Refresh,
    /// Run the panel action over every result, and the search again behind it.
    RunAction,
    /// Hand the edit to the query line.
    EditQuery,
    /// Hand the edit to a box, by its number.
    EditField(usize),
    /// Open the row in focus with the picker left open.
    OpenAndStay,
    /// Accept the completion from the history, or open the row in focus and close: what
    /// `enter` says.
    Enter,
    /// Open the row in focus and close.
    Accept,
    /// Open the row in focus in a split below, and close.
    SplitBelow,
    /// Open the row in focus in a split beside, and close.
    SplitBeside,
    /// Close the picker and hand its query on.
    Widen,
    Close,
}

/// A key with no modifier.
pub open spec fn is_key(key: KeyEvent, code: KeyCode) -> bool {
    key == KeyEvent::bare(code)
}

/// A key with Shift and nothing else.
pub open spec fn is_shift(key: KeyEvent, code: KeyCode) -> bool {
    key.code == code && key.modifiers == KeyModifiers::spec_shift()
}

/// A letter with Control and nothing else.
pub open spec fn is_ctrl(key: KeyEvent, c: char) -> bool {
    key.code == KeyCode::Char(c) && key.modifiers == (KeyModifiers {
        control: true,
        ..KeyModifiers::spec_none()
    })
}

/// A key with Alt and nothing else.
pub open spec fn is_alt(key: KeyEvent, code: KeyCode) -> bool {
    key.code == code && key.modifiers == (KeyModifiers { alt: true, ..KeyModifiers::spec_none() })
}

/// A letter with Cmd and nothing else.
pub open spec fn is_meta(key: KeyEvent, c: char) -> bool {
    key.code == KeyCode::Char(c) && key.modifiers == (KeyModifiers {
        meta: true,
        ..KeyModifiers::spec_none()
    })
}

fn bare(key: KeyEvent, code: KeyCode) -> (r: bool)
    ensures
        r == is_key(key, code),
{
    key.code == code && key.modifiers.is_empty()
}

fn shift(key: KeyEvent, code: KeyCode) -> (r: bool)
    ensures
        r == is_shift(key, code),
{
    key.code == code && key.modifiers.is_shift()
}

fn ctrl(key: KeyEvent, c: char) -> (r: bool)
    ensures
        r == is_ctrl(key, c),
{
    key.code == KeyCode::Char(c) && key.modifiers.control && !key.modifiers.shift
        && !key.modifiers.alt && !key.modifiers.meta
}

fn alt(key: KeyEvent, code: KeyCode) -> (r: bool)
    ensures
        r == is_alt(key, code),
{
    key.code == code && key.modifiers.alt && !key.modifiers.shift && !key.modifiers.control
        && !key.modifiers.meta
}

fn meta(key: KeyEvent, c: char) -> (r: bool)
    ensures
        r == is_meta(key, c),
{
    key.code == KeyCode::Char(c) && key.modifiers.meta && !key.modifiers.shift
        && !key.modifiers.control && !key.modifiers.alt
}

/// What a key asks a picker for.
#[derive(Debug, Clone, Copy, PartialEq, Eq, Structural)]
pub enum Asked {
    Flip(usize),
    FocusBack,
    FocusOn,
    Up,
    Down,
    PageDown,
    PageUp,
    Start,
    End,
    Close,
    Widen,
    OpenAndStay,
    RunAction,
    Enter,
    SplitBelow,
    SplitBeside,
    TogglePreview,
    Edit,
}

impl Picker {
    /// Whether Tab has anywhere to go: it walks the boxes and switches when the picker has
    /// any, and steps through the results without them.
    pub open spec fn has_stops(self) -> bool {
        self.panel_toggles@.len() > 0 || self.boxes().len() > 0
    }

    /// Whether the focus is in a box with a button: Enter presses it there.
    pub open spec fn on_button(self) -> bool {
        match self.focus {
            Focus::Field(index) => self.panel_fields@[index as int].button is Some,
            _ => false,
        }
    }

    /// What a key asks for. A panel's switches are flipped with Alt + their own key,
    /// whichever line the cursor is on.
    pub open spec fn asked(self, key: KeyEvent) -> Asked {
        if let Some(index) = self.switch_for(key) {
            Asked::Flip(index as usize)
        } else if is_shift(key, KeyCode::Tab) && self.has_stops() {
            Asked::FocusBack
        } else if is_key(key, KeyCode::Tab) && self.has_stops() {
            Asked::FocusOn
        } else if is_key(key, KeyCode::Char(' ')) && self.focus is Toggle {
            Asked::Flip(self.focus->Toggle_0)
        } else if is_shift(key, KeyCode::Tab) || is_key(key, KeyCode::Up) || is_ctrl(key, 'p') {
            Asked::Up
        } else if is_key(key, KeyCode::Tab) || is_key(key, KeyCode::Down) || is_ctrl(key, 'n') {
            Asked::Down
        } else if is_key(key, KeyCode::PageDown) || is_ctrl(key, 'd') {
            Asked::PageDown
        } else if is_key(key, KeyCode::PageUp) || is_ctrl(key, 'u') {
            Asked::PageUp
        } else if is_key(key, KeyCode::Home) {
            Asked::Start
        } else if is_key(key, KeyCode::End) {
            Asked::End
        } else if is_key(key, KeyCode::Esc) || is_ctrl(key, 'c') {
            Asked::Close
        } else if (is_ctrl(key, 'f') || is_meta(key, 'f')) && self.has_widen {
            Asked::Widen
        } else if is_alt(key, KeyCode::Enter) {
            Asked::OpenAndStay
        } else if is_key(key, KeyCode::Enter) && self.on_button() {
            Asked::RunAction
        } else if is_key(key, KeyCode::Enter) {
            Asked::Enter
        } else if is_ctrl(key, 's') {
            Asked::SplitBelow
        } else if is_ctrl(key, 'v') {
            Asked::SplitBeside
        } else if is_ctrl(key, 't') {
            Asked::TogglePreview
        } else if is_alt(key, KeyCode::Char('a')) && self.has_action {
            Asked::RunAction
        } else {
            Asked::Edit
        }
    }

    fn read_key(&self, key: KeyEvent) -> (r: Asked)
        requires
            self.wf(),
        ensures
            r == self.asked(key),
    {
        if let Some(index) = self.panel_toggle_at(key) {
            return Asked::Flip(index);
        }
        let has_stops: bool = self.panel_toggles.len() > 0
            || crate::picker::panel::shown_fields(&self.panel_fields, &self.panel_toggles).len() > 0;
        if shift(key, KeyCode::Tab) && has_stops {
            return Asked::FocusBack;
        }
        if bare(key, KeyCode::Tab) && has_stops {
            return Asked::FocusOn;
        }
        if let Focus::Toggle(index) = self.focus {
            if bare(key, KeyCode::Char(' ')) {
                return Asked::Flip(index);
            }
        }
        let button: bool = match self.focus {
            Focus::Field(index) => self.panel_fields[index].button.is_some(),
            _ => false,
        };
        if shift(key, KeyCode::Tab) || bare(key, KeyCode::Up) || ctrl(key, 'p') {
            Asked::Up
        } else if bare(key, KeyCode::Tab) || bare(key, KeyCode::Down) || ctrl(key, 'n') {
            Asked::Down
        } else if bare(key, KeyCode::PageDown) || ctrl(key, 'd') {
            Asked::PageDown
        } else if bare(key, KeyCode::PageUp) || ctrl(key, 'u') {
            Asked::PageUp
        } else if bare(key, KeyCode::Home) {
            Asked::Start
        } else if bare(key, KeyCode::End) {
            Asked::End
        } else if bare(key, KeyCode::Esc) || ctrl(key, 'c') {
            Asked::Close
        } else if (ctrl(key, 'f') || meta(key, 'f')) && self.has_widen {
            Asked::Widen
        } else if alt(key, KeyCode::Enter) {
            Asked::OpenAndStay
        } else if bare(key, KeyCode::Enter) && button {
            Asked::RunAction
        } else if bare(key, KeyCode::Enter) {
            Asked::Enter
        } else if ctrl(key, 's') {
            Asked::SplitBelow
        } else if ctrl(key, 'v') {
            Asked::SplitBeside
        } else if ctrl(key, 't') {
            Asked::TogglePreview
        } else if alt(key, KeyCode::Char('a')) && self.has_action {
            Asked::RunAction
        } else {
            Asked::Edit
        }
    }

    /// Where an edit goes: to the line that has the focus. Typing while a switch has it goes
    /// back to the query line, which is where the typing was meant for.
    pub fn edit_line(&mut self) -> (r: PickerTask)
        ensures
            match old(self).focus {
                Focus::Field(index) => r == PickerTask::EditField(index) && *final(self) == *old(
                    self,
                ),
                _ => r == PickerTask::EditQuery && *final(self) == (Picker {
                    focus: Focus::Query,
                    ..*old(self)
                }),
            },
    {
        match self.focus {
            Focus::Field(index) => PickerTask::EditField(index),
            Focus::Query | Focus::Toggle(_) => {
                self.focus = Focus::Query;
                PickerTask::EditQuery
            },
        }
    }

    /// Whether running the action is worth anything.
    pub open spec fn action_task(self) -> PickerTask {
        if self.has_action {
            PickerTask::RunAction
        } else {
            PickerTask::Nothing
        }
    }

    /// Whether a key pressed over a picker of `len` rows leaves it as `after`, with `task` left
    /// to do.
    pub open spec fn keyed(self, key: KeyEvent, len: u32, after: Picker, task: PickerTask) -> bool {
        match self.asked(key) {
            Asked::Flip(index) => self.flips_to(index as int, after) && task == if self.shows_boxes(index as int) {
                PickerTask::Nothing
            } else {
                PickerTask::Refresh
            },
            Asked::FocusBack => task == PickerTask::Nothing && after == (Picker {
                focus: self.next_stop(Direction::Backward),
                ..self
            }),
            Asked::FocusOn => task == PickerTask::Nothing && after == (Picker {
                focus: self.next_stop(Direction::Forward),
                ..self
            }),
            Asked::Up => task == PickerTask::Nothing && after == (Picker {
                cursor: self.moved(1, Direction::Backward, len),
                ..self
            }),
            Asked::Down => task == PickerTask::Nothing && after == (Picker {
                cursor: self.moved(1, Direction::Forward, len),
                ..self
            }),
            Asked::PageDown => task == PickerTask::Nothing && after == (Picker {
                cursor: self.moved(
                    self.completion_height as u32,
                    Direction::Forward,
                    len,
                ),
                ..self
            }),
            Asked::PageUp => task == PickerTask::Nothing && after == (Picker {
                cursor: self.moved(
                    self.completion_height as u32,
                    Direction::Backward,
                    len,
                ),
                ..self
            }),
            Asked::Start => task == PickerTask::Nothing && after == (Picker {
                cursor: 0,
                ..self
            }),
            Asked::End => task == PickerTask::Nothing && after == (Picker {
                cursor: less(len as int, 1) as u32,
                ..self
            }),
            Asked::Close => task == PickerTask::Close && after == self,
            Asked::Widen => task == PickerTask::Widen && after == (Picker {
                has_widen: false,
                ..self
            }),
            Asked::OpenAndStay => task == PickerTask::OpenAndStay && after == self,
            Asked::RunAction => task == self.action_task() && after == self,
            Asked::Enter => task == PickerTask::Enter && after == self,
            Asked::SplitBelow => task == PickerTask::SplitBelow && after == self,
            Asked::SplitBeside => task == PickerTask::SplitBeside && after == self,
            Asked::TogglePreview => task == PickerTask::Nothing && after == (Picker {
                show_preview: !self.show_preview,
                ..self
            }),
            Asked::Edit => match self.focus {
                Focus::Field(index) => task == PickerTask::EditField(index) && after == self,
                _ => task == PickerTask::EditQuery && after == (Picker {
                    focus: Focus::Query,
                    ..self
                }),
            },
        }
    }

    /// A key pressed over a picker of `len` rows.
    pub fn handle_key(&mut self, key: KeyEvent, len: u32) -> (r: PickerTask)
        requires
            old(self).wf(),
            old(self).panel_toggles@.len() + old(self).panel_fields@.len() < usize::MAX / 2,
        ensures
            final(self).wf(),
            old(self).keyed(key, len, *final(self), r),
    {
        match self.read_key(key) {
            Asked::Flip(index) => {
                proof {
                    self.lemma_switch(0, key);
                }
                if self.flip_toggle(index) {
                    PickerTask::Refresh
                } else {
                    PickerTask::Nothing
                }
            },
            Asked::FocusBack => {
                self.focus_by(Direction::Backward);
                PickerTask::Nothing
            },
            Asked::FocusOn => {
                self.focus_by(Direction::Forward);
                PickerTask::Nothing
            },
            Asked::Up => {
                self.move_by(1, Direction::Backward, len);
                PickerTask::Nothing
            },
            Asked::Down => {
                self.move_by(1, Direction::Forward, len);
                PickerTask::Nothing
            },
            Asked::PageDown => {
                self.page_down(len);
                PickerTask::Nothing
            },
            Asked::PageUp => {
                self.page_up(len);
                PickerTask::Nothing
            },
            Asked::Start => {
                self.to_start();
                PickerTask::Nothing
            },
            Asked::End => {
                self.to_end(len);
                PickerTask::Nothing
            },
            Asked::Close => PickerTask::Close,
            Asked::Widen => {
                self.has_widen = false;
                PickerTask::Widen
            },
            Asked::OpenAndStay => PickerTask::OpenAndStay,
            Asked::RunAction => {
                if self.has_action {
                    PickerTask::RunAction
                } else {
                    PickerTask::Nothing
                }
            },
            Asked::Enter => PickerTask::Enter,
            Asked::SplitBelow => PickerTask::SplitBelow,
            Asked::SplitBeside => PickerTask::SplitBeside,
            Asked::TogglePreview => {
                self.show_preview = !self.show_preview;
                PickerTask::Nothing
            },
            Asked::Edit => self.edit_line(),
        }
    }

    proof fn lemma_switch(self, k: int, key: KeyEvent)
        requires
            0 <= k <= self.panel_toggles@.len(),
        ensures
            key.code matches KeyCode::Char(c) ==> k <= self.switch_keyed(k, c)
                <= self.panel_toggles@.len(),
        decreases self.panel_toggles@.len() - k,
    {
        if k < self.panel_toggles@.len() {
            self.lemma_switch(k + 1, key);
        }
    }

    // -----------------------------------------------------------------------------------
    // The mouse
    // -----------------------------------------------------------------------------------

    /// Whether a click is on an input line: anywhere left of its right edge, the label
    /// included.
    pub open spec fn clicks_line(area: Rect, event: MouseEvent) -> bool {
        event.row == area.y && event.column < area.spec_right()
    }

    /// The first switch from `k` on that was drawn under the pointer; or the end.
    pub open spec fn switch_under(self, k: int, event: MouseEvent) -> int
        decreases self.toggle_areas@.len() - k,
    {
        if k >= self.toggle_areas@.len() {
            self.toggle_areas@.len() as int
        } else if on_line(self.toggle_areas@[k], event.row, event.column) {
            k
        } else {
            self.switch_under(k + 1, event)
        }
    }

    /// The first box from `k` on whose line the pointer is on, as drawn; or the end.
    pub open spec fn box_under(self, k: int, event: MouseEvent) -> int
        decreases self.field_areas@.len() - k,
    {
        if k >= self.field_areas@.len() {
            self.field_areas@.len() as int
        } else if Picker::clicks_line(self.field_areas@[k].1, event) {
            k
        } else {
            self.box_under(k + 1, event)
        }
    }

    /// The row under the pointer, of `len`.
    pub open spec fn row_under(self, event: MouseEvent, len: u32) -> Option<u32> {
        let index = self.rows_offset + (event.row - self.rows_area.y);
        if self.rows_area.holds(event.row as int, event.column as int) && index < len {
            Some(index as u32)
        } else {
            None
        }
    }

    /// Whether a click on a row at a time is the second of two.
    pub open spec fn is_double(self, row: u32, now: u64) -> bool {
        match self.last_click {
            Some((last, at)) => last == row && less(now as int, at as int) < DOUBLE_CLICK,
            None => false,
        }
    }

    /// How far the wheel moved the preview of the row in focus.
    pub open spec fn scrolled_lines(self) -> int {
        if self.preview_scroll.row == self.cursor {
            self.preview_scroll.lines as int
        } else {
            0
        }
    }

    /// The preview of the row in focus scrolled by `lines`, as far as numbers go.
    pub open spec fn preview_moved(self, lines: int) -> PreviewScroll {
        PreviewScroll {
            row: self.cursor,
            lines: min(max(self.scrolled_lines() + lines, i64::MIN as int), i64::MAX as int) as i64,
        }
    }

    fn scroll_preview(&mut self, lines: i64)
        requires
            -0x1_0000_0000 <= lines <= 0x1_0000_0000,
        ensures
            *final(self) == (Picker {
                preview_scroll: old(self).preview_moved(lines as int),
                ..*old(self)
            }),
    {
        let before: i64 = if self.preview_scroll.row == self.cursor {
            self.preview_scroll.lines
        } else {
            0
        };
        let after: i64 = if lines > 0 && before > i64::MAX - lines {
            i64::MAX
        } else if lines < 0 && before < i64::MIN - lines {
            i64::MIN
        } else {
            before + lines
        };
        self.preview_scroll = PreviewScroll { row: self.cursor, lines: after };
    }

    /// What a left click leaves of the picker, and what it asks for: it marks the row it
    /// lands on, so the preview shows it, and a second click on that row opens it.
    pub open spec fn clicks_to(
        self,
        event: MouseEvent,
        len: u32,
        now: u64,
        after: Picker,
        task: PickerTask,
    ) -> bool {
        let button = match self.button_area {
            Some(area) => on_line(area, event.row, event.column),
            None => false,
        };
        let switch = self.switch_under(0, event);
        let field = self.box_under(0, event);
        if button {
            task == self.action_task() && after == self
        } else if switch < self.toggle_areas@.len() {
            self.flips_to(switch, after) && task == if self.shows_boxes(switch) {
                PickerTask::Nothing
            } else {
                PickerTask::Refresh
            }
        } else if Picker::clicks_line(self.query_area, event) {
            task == PickerTask::Nothing && after == (Picker { focus: Focus::Query, ..self })
        } else if field < self.field_areas@.len() {
            task == PickerTask::Nothing && after == (Picker {
                focus: Focus::Field(self.field_areas@[field].0),
                ..self
            })
        } else {
            match self.row_under(event, len) {
                None => task == PickerTask::Nothing && after == self,
                Some(row) => if self.is_double(row, now) {
                    task == PickerTask::Accept && after == (Picker {
                        cursor: row,
                        last_click: None,
                        ..self
                    })
                } else {
                    task == PickerTask::Nothing && after == (Picker {
                        cursor: row,
                        last_click: Some((row, now)),
                        ..self
                    })
                },
            }
        }
    }

    fn click(&mut self, event: MouseEvent, len: u32, now: u64) -> (r: PickerTask)
        requires
            old(self).wf(),
        ensures
            old(self).clicks_to(event, len, now, *final(self), r),
            final(self).wf(),
    {
        if let Some(area) = self.button_area {
            if event.row == area.y && event.column >= area.x && event.column < area.right() {
                return if self.has_action {
                    PickerTask::RunAction
                } else {
                    PickerTask::Nothing
                };
            }
        }
        let mut switch: usize = 0;
        while switch < self.toggle_areas.len() && !(event.row == self.toggle_areas[switch].y
            && event.column >= self.toggle_areas[switch].x && event.column
            < self.toggle_areas[switch].right())
            invariant
                switch <= self.toggle_areas@.len(),
                self.switch_under(0, event) == self.switch_under(switch as int, event),
            decreases self.toggle_areas@.len() - switch,
        {
            switch = switch + 1;
        }
        if switch < self.toggle_areas.len() {
            return if self.flip_toggle(switch) {
                PickerTask::Refresh
            } else {
                PickerTask::Nothing
            };
        }
        if event.row == self.query_area.y && event.column < self.query_area.right() {
            self.focus = Focus::Query;
            return PickerTask::Nothing;
        }
        let mut field: usize = 0;
        while field < self.field_areas.len() && !(event.row == self.field_areas[field].1.y
            && event.column < self.field_areas[field].1.right())
            invariant
                field <= self.field_areas@.len(),
                self.box_under(0, event) == self.box_under(field as int, event),
            decreases self.field_areas@.len() - field,
        {
            field = field + 1;
        }
        if field < self.field_areas.len() {
            self.focus = Focus::Field(self.field_areas[field].0);
            return PickerTask::Nothing;
        }
        if !self.rows_area.contains(event.row, event.column) {
            return PickerTask::Nothing;
        }
        let index: u64 = self.rows_offset as u64 + (event.row - self.rows_area.y) as u64;
        if index >= len as u64 {
            return PickerTask::Nothing;
        }
        let row: u32 = index as u32;
        let double: bool = match self.last_click {
            Some((last, at)) => last == row && now.saturating_sub(at) < DOUBLE_CLICK,
            None => false,
        };
        self.cursor = row;
        if double {
            self.last_click = None;
            return PickerTask::Accept;
        }
        self.last_click = Some((row, now));
        PickerTask::Nothing
    }

    /// Whether the mouse over a picker of `len` rows leaves it as `after`, with `task` left to do.
    pub open spec fn moused(
        self,
        event: MouseEvent,
        len: u32,
        lines: u32,
        now: u64,
        after: Picker,
        task: PickerTask,
    ) -> bool {
        match event.kind {
            MouseEventKind::Down(MouseButton::Left) => self.clicks_to(
                event,
                len,
                now,
                after,
                task,
            ),
            MouseEventKind::ScrollDown => task == PickerTask::Nothing && after == if self.preview_area.holds(event.row as int, event.column as int) {
                Picker {
                    preview_scroll: self.preview_moved(lines as int),
                    ..self
                }
            } else {
                Picker {
                    cursor: min(
                        min(self.cursor + lines, u32::MAX as int),
                        less(len as int, 1),
                    ) as u32,
                    ..self
                }
            },
            MouseEventKind::ScrollUp => task == PickerTask::Nothing && after == if self.preview_area.holds(event.row as int, event.column as int) {
                Picker {
                    preview_scroll: self.preview_moved(-(lines as int)),
                    ..self
                }
            } else {
                Picker {
                    cursor: less(self.cursor as int, lines as int) as u32,
                    ..self
                }
            },
            _ => task == PickerTask::Nothing && after == self,
        }
    }

    /// The mouse over a picker of `len` rows, at a time in milliseconds. The wheel walks the
    /// list without opening anything, and over the preview it scrolls the preview. The
    /// pointer merely moving is nobody's: taking it would repaint the screen at every
    /// motion. Answers whether the event was taken, and what is left to do.
    pub fn handle_mouse(&mut self, event: MouseEvent, len: u32, lines: u32, now: u64) -> (r: (
        bool,
        PickerTask,
    ))
        requires
            old(self).wf(),
        ensures
            final(self).wf(),
            r.0 == (event.kind != MouseEventKind::Moved),
            old(self).moused(event, len, lines, now, *final(self), r.1),
    {
        if event.kind == MouseEventKind::Moved {
            return (false, PickerTask::Nothing);
        }
        let on_preview: bool = self.preview_area.contains(event.row, event.column);
        match event.kind {
            MouseEventKind::Down(MouseButton::Left) => {
                let task: PickerTask = self.click(event, len, now);
                (true, task)
            },
            MouseEventKind::ScrollDown => {
                if on_preview {
                    self.scroll_preview(lines as i64);
                } else {
                    let moved: u32 = self.cursor.saturating_add(lines);
                    let last: u32 = len.saturating_sub(1);
                    self.cursor = if moved < last {
                        moved
                    } else {
                        last
                    };
                }
                (true, PickerTask::Nothing)
            },
            MouseEventKind::ScrollUp => {
                if on_preview {
                    self.scroll_preview(-(lines as i64));
                } else {
                    self.cursor = self.cursor.saturating_sub(lines);
                }
                (true, PickerTask::Nothing)
            },
            _ => (true, PickerTask::Nothing),
        }
    }

    // -----------------------------------------------------------------------------------
    // Closing
    // -----------------------------------------------------------------------------------

    /// Closes the picker. Answers whether it is kept to be opened again: a very large one is
    /// not, to avoid excessive memory consumption. One that is kept stops streaming in new
    /// items in the background.
    pub fn close(&mut self, items: u32) -> (r: bool)
        ensures
            r == (items <= MAX_ITEMS_TO_KEEP),
            *final(self) == (Picker {
                version: if r {
                    next_version(old(self).version)
                } else {
                    old(self).version
                },
                ..*old(self)
            }),
    {
        if items > MAX_ITEMS_TO_KEEP {
            return false;
        }
        self.version = if self.version == usize::MAX {
            0
        } else {
            self.version + 1
        };
        true
    }
}

impl Picker {
    /// What was typed for the column that is searched without being named: what the picker's
    /// history keeps of it.
    pub fn primary_query(&self, query: &Query) -> (r: String)
        requires
            self.primary_column < self.columns@.len(),
        ensures
            r@ == text_named(
                query.deep_view(),
                0,
                self.columns.deep_view()[self.primary_column as int].name,
            ),
    {
        let column: &Column = &self.columns[self.primary_column];
        proof {
            assert(self.columns.deep_view()[self.primary_column as int] == column.deep_view());
        }
        typed_text(query, column.name.as_str())
    }

    /// What was typed on the query line asks for another query: answers what the matcher has
    /// to be told, or nothing where the query still asks for the same. A query that has
    /// meaningfully changed goes back to the top of the results, and a dynamic one has to be
    /// run again.
    pub fn prompt_changed(&mut self, was: &Query, now: &Query) -> (r: Option<Vec<PatternChange>>)
        ensures
            if asks_the_same(was.deep_view(), now.deep_view()) {
                r is None && *final(self) == *old(self)
            } else {
                &&& r is Some
                &&& (r->0).deep_view() == changes(
                    old(self).columns.deep_view(),
                    was.deep_view(),
                    now.deep_view(),
                    old(self).columns@.len(),
                )
                &&& *final(self) == (Picker { cursor: 0, ..*old(self) })
            },
    {
        if same_query(was, now) {
            return None;
        }
        self.cursor = 0;
        Some(pattern_changes(&self.columns, was, now))
    }

    /// What was typed in a box. Answers whether it holds another text now: the picker then
    /// goes back to the top of the results, and a dynamic query has to be run again.
    pub fn field_changed(&mut self, index: usize, line: String) -> (r: bool)
        requires
            index < old(self).panel_fields@.len(),
        ensures
            r == (line@ != old(self).panel_fields@[index as int].line@),
            final(self).cursor == if r {
                0
            } else {
                old(self).cursor
            },
            final(self).panel_fields@.len() == old(self).panel_fields@.len(),
            forall|i: int|
                0 <= i < old(self).panel_fields@.len() ==> #[trigger] final(self).panel_fields@[i]
                    == if r && i == index {
                    PanelField { line, ..old(self).panel_fields@[i] }
                } else {
                    old(self).panel_fields@[i]
                },
            *final(self) == (Picker {
                cursor: final(self).cursor,
                panel_fields: final(self).panel_fields,
                ..*old(self)
            }),
    {
        if same_str(line.as_str(), self.panel_fields[index].line.as_str()) {
            return false;
        }
        let mut field: PanelField = self.panel_fields.remove(index);
        field.line = line;
        self.panel_fields.insert(index, field);
        self.cursor = 0;
        true
    }
}

/// The version behind another, round the end of the numbers.
pub open spec fn next_version(version: usize) -> usize {
    if version == usize::MAX {
        0
    } else {
        (version + 1) as usize
    }
}

/// A picker that was closed shuts out what streamed into it.
pub proof fn a_closed_picker_takes_no_items(version: usize)
    ensures
        next_version(version) != version,
{
}

/// What Enter asks for where no button takes it.
#[derive(Debug, PartialEq)]
pub enum EnterTask {
    /// Put this on the query line, as a paste.
    Complete(String),
    /// Open the row in focus and close.
    Accept,
}

/// What Enter types for a completion from the history. The percent character is used by the
/// query language and needs to be escaped with a backslash.
pub fn escape_completion(completion: &str) -> (r: String)
    ensures
        r@ == replaced(completion@, "%"@, "\\%"@),
{
    proof {
        reveal_strlit("%");
    }
    let letters: Vec<char> = chars(completion);
    let escaped: Vec<char> = replace(letters.as_slice(), "%", "\\%");
    string(escaped.as_slice())
}

/// What Enter does: on an empty query line with a completion from the history the completion
/// is taken, otherwise the row in focus opens.
pub fn enter(line_empty: bool, completion: Option<String>) -> (r: EnterTask)
    ensures
        match r {
            EnterTask::Complete(line) => line_empty && completion is Some && line@ == replaced(
                completion->0@,
                "%"@,
                "\\%"@,
            ),
            EnterTask::Accept => !line_empty || completion is None,
        },
{
    match completion {
        Some(completion) => if line_empty {
            EnterTask::Complete(escape_completion(completion.as_str()))
        } else {
            EnterTask::Accept
        },
        None => EnterTask::Accept,
    }
}

} // verus!
