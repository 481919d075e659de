//! What the keys and the mouse come to in every picker.

use crate::graphics::Rect;
use crate::input::{KeyCode, KeyEvent, KeyModifiers, MouseButton, MouseEvent, MouseEventKind};
use crate::picker::events::PickerTask;
use crate::picker::list::{Focus, Picker, DOUBLE_CLICK};
use vstd::prelude::*;

verus! {

/// A key with nothing held.
pub open spec fn alone(code: KeyCode) -> KeyEvent {
    KeyEvent {
        code,
        modifiers: KeyModifiers { shift: false, control: false, alt: false, meta: false },
    }
}

/// A letter with Control held.
pub open spec fn with_control(c: char) -> KeyEvent {
    KeyEvent {
        code: KeyCode::Char(c),
        modifiers: KeyModifiers { shift: false, control: true, alt: false, meta: false },
    }
}

/// A key with Alt held.
pub open spec fn with_alt(code: KeyCode) -> KeyEvent {
    KeyEvent {
        code,
        modifiers: KeyModifiers { shift: false, control: false, alt: true, meta: false },
    }
}

/// A key with Shift held.
pub open spec fn with_shift(code: KeyCode) -> KeyEvent {
    KeyEvent {
        code,
        modifiers: KeyModifiers { shift: true, control: false, alt: false, meta: false },
    }
}

/// Nothing but the row in focus is another.
pub open spec fn only_moved(picker: Picker, after: Picker, task: PickerTask) -> bool {
    task == PickerTask::Nothing && after == (Picker { cursor: after.cursor, ..picker })
}

proof fn lemma_round(n: int, m: int)
    requires
        0 < m,
    ensures
        0 <= n < m ==> n % m == n,
        m <= n < 2 * m ==> n % m == n - m,
{
    if 0 <= n < m {
        vstd::arithmetic::div_mod::lemma_small_mod(n as nat, m as nat);
    }
    if m <= n < 2 * m {
        vstd::arithmetic::div_mod::lemma_small_mod((n - m) as nat, m as nat);
        vstd::arithmetic::div_mod::lemma_mod_add_multiples_vanish(n - m, m);
    }
}

/// The Down arrow, and Ctrl-n with it, goes to the row below, from the last to the first,
/// whatever the panel holds.
pub proof fn down_goes_to_the_row_below(
    picker: Picker,
    key: KeyEvent,
    len: u32,
    after: Picker,
    task: PickerTask,
)
    requires
        key == alone(KeyCode::Down) || key == with_control('n'),
        picker.cursor < len,
        picker.keyed(key, len, after, task),
    ensures
        only_moved(picker, after, task),
        picker.cursor + 1 < len ==> after.cursor == picker.cursor + 1,
        picker.cursor + 1 == len ==> after.cursor == 0,
{
    lemma_round(picker.cursor + 1, len as int);
    lemma_round(len as int, len as int);
}

/// The Up arrow, and Ctrl-p with it, goes to the row above, from the first to the last,
/// whatever the panel holds.
pub proof fn up_goes_to_the_row_above(
    picker: Picker,
    key: KeyEvent,
    len: u32,
    after: Picker,
    task: PickerTask,
)
    requires
        key == alone(KeyCode::Up) || key == with_control('p'),
        picker.cursor < len,
        picker.cursor + len <= u32::MAX,
        picker.keyed(key, len, after, task),
    ensures
        only_moved(picker, after, task),
        0 < picker.cursor ==> after.cursor == picker.cursor - 1,
        picker.cursor == 0 ==> after.cursor == len - 1,
{
    lemma_round(picker.cursor + len - 1, len as int);
}

/// A page down is as many rows further on as a page has, a page up as many back, as long as
/// there are that many.
pub proof fn pages_are_as_high_as_the_list(
    picker: Picker,
    key: KeyEvent,
    len: u32,
    after: Picker,
    task: PickerTask,
)
    requires
        picker.cursor < len,
        picker.cursor + len <= u32::MAX,
        picker.keyed(key, len, after, task),
    ensures
        key == alone(KeyCode::PageDown) || key == with_control('d') ==> {
            &&& only_moved(picker, after, task)
            &&& picker.cursor + picker.completion_height < len ==> after.cursor == picker.cursor
                + picker.completion_height
        },
        key == alone(KeyCode::PageUp) || key == with_control('u') ==> {
            &&& only_moved(picker, after, task)
            &&& picker.completion_height <= picker.cursor ==> after.cursor == picker.cursor
                - picker.completion_height
        },
{
    lemma_round(picker.cursor + picker.completion_height, len as int);
    lemma_round(picker.cursor + len - picker.completion_height, len as int);
}

/// Home goes to the first row and End to the last.
pub proof fn home_and_end_go_to_the_ends(
    picker: Picker,
    key: KeyEvent,
    len: u32,
    after: Picker,
    task: PickerTask,
)
    requires
        len > 0,
        picker.keyed(key, len, after, task),
    ensures
        key == alone(KeyCode::Home) ==> only_moved(picker, after, task) && after.cursor == 0,
        key == alone(KeyCode::End) ==> only_moved(picker, after, task) && after.cursor == len - 1,
{
}

/// The keys that leave the picker, or open a row, leave it as it is and ask for just that. In a
/// box with a button Enter presses the button instead, where there is something it does.
pub proof fn keys_that_end_it_change_nothing(
    picker: Picker,
    key: KeyEvent,
    len: u32,
    after: Picker,
    task: PickerTask,
)
    requires
        picker.keyed(key, len, after, task),
    ensures
        key == alone(KeyCode::Esc) || key == with_control('c') ==> task == PickerTask::Close && after
            == picker,
        key == alone(KeyCode::Enter) && !(picker.focus is Field) ==> task == PickerTask::Enter
            && after == picker,
        key == alone(KeyCode::Enter) ==> (picker.focus matches Focus::Field(index) ==> {
            &&& after == picker
            &&& picker.panel_fields@[index as int].button is None ==> task == PickerTask::Enter
            &&& picker.panel_fields@[index as int].button is Some ==> task == if picker.has_action {
                PickerTask::RunAction
            } else {
                PickerTask::Nothing
            }
        }),
        key == with_alt(KeyCode::Enter) ==> task == PickerTask::OpenAndStay && after == picker,
        key == with_control('s') ==> task == PickerTask::SplitBelow && after == picker,
        key == with_control('v') ==> task == PickerTask::SplitBeside && after == picker,
        key == with_control('f') && picker.has_widen ==> task == PickerTask::Widen,
        key == with_control('t') ==> task == PickerTask::Nothing && after == (Picker {
            show_preview: !picker.show_preview,
            ..picker
        }),
{
}

/// A letter that is typed goes to the line the cursor is on, and to the query line from
/// anywhere else.
pub proof fn typing_goes_where_the_cursor_is(
    picker: Picker,
    c: char,
    len: u32,
    after: Picker,
    task: PickerTask,
)
    requires
        picker.keyed(alone(KeyCode::Char(c)), len, after, task),
    ensures
        picker.focus == Focus::Query ==> task == PickerTask::EditQuery && after == picker,
        picker.focus matches Focus::Field(index) ==> task == PickerTask::EditField(index) && after
            == picker,
        picker.focus is Toggle && c != ' ' ==> task == PickerTask::EditQuery && after == (Picker {
            focus: Focus::Query,
            ..picker
        }),
        // On a switch the space bar flips it.
        picker.focus matches Focus::Toggle(index) ==> (c == ' ' && index
            < picker.panel_toggles@.len() ==> after.panel_toggles@[index as int].on
            == !picker.panel_toggles@[index as int].on),
{
}

proof fn lemma_switch_keyed(picker: Picker, k: int, c: char, index: int)
    requires
        0 <= k <= index < picker.panel_toggles@.len(),
        picker.panel_toggles@[index].key == c,
        forall|i: int| k <= i < index ==> (#[trigger] picker.panel_toggles@[i]).key != c,
    ensures
        picker.switch_keyed(k, c) == index,
    decreases index - k,
{
    if k < index {
        assert(picker.panel_toggles@[k].key != c);
        lemma_switch_keyed(picker, k + 1, c, index);
    }
}

/// Alt and the key of a switch turns it on where it was off and off where it was on, and no
/// other.
pub proof fn a_switch_has_its_key(
    picker: Picker,
    index: int,
    len: u32,
    after: Picker,
    task: PickerTask,
)
    requires
        0 <= index < picker.panel_toggles@.len() <= usize::MAX,
        forall|i: int|
            0 <= i < index ==> (#[trigger] picker.panel_toggles@[i]).key
                != picker.panel_toggles@[index].key,
        picker.keyed(
            with_alt(KeyCode::Char(picker.panel_toggles@[index].key)),
            len,
            after,
            task,
        ),
    ensures
        after.panel_toggles@.len() == picker.panel_toggles@.len(),
        forall|i: int|
            0 <= i < after.panel_toggles@.len() ==> (#[trigger] after.panel_toggles@[i]).on == if i
                == index {
                !picker.panel_toggles@[i].on
            } else {
                picker.panel_toggles@[i].on
            },
        after.cursor == picker.cursor,
        task == PickerTask::Nothing || task == PickerTask::Refresh,
{
    lemma_switch_keyed(picker, 0, picker.panel_toggles@[index].key, index);
}

/// Without boxes and switches Tab is the Down arrow and Shift-Tab the Up arrow; with them Tab
/// goes from the query line to the first box on screen, or to the first switch where there is
/// none.
pub proof fn tab_walks_what_there_is(picker: Picker, len: u32, after: Picker, task: PickerTask)
    ensures
        !picker.has_stops() ==> {
            &&& picker.keyed(alone(KeyCode::Tab), len, after, task) == picker.keyed(
                alone(KeyCode::Down),
                len,
                after,
                task,
            )
            &&& picker.keyed(with_shift(KeyCode::Tab), len, after, task) == picker.keyed(
                alone(KeyCode::Up),
                len,
                after,
                task,
            )
        },
        picker.has_stops() && picker.focus == Focus::Query && picker.keyed(
            alone(KeyCode::Tab),
            len,
            after,
            task,
        ) ==> {
            &&& task == PickerTask::Nothing && after == (Picker { focus: after.focus, ..picker })
            &&& after.focus == if picker.boxes().len() > 0 {
                Focus::Field(picker.boxes()[0])
            } else {
                Focus::Toggle(0)
            }
        },
{
    let count = picker.stops().len() as int;
    assert(picker.stops()[0] == Focus::Query);
    if picker.has_stops() {
        assert(count >= 2);
        lemma_round(1, count);
        if picker.boxes().len() > 0 {
            assert(picker.stops()[1] == Focus::Field(picker.boxes()[0]));
        } else {
            assert(picker.stops()[1] == Focus::Toggle(0));
        }
    }
}

// ---------------------------------------------------------------------------------------
// The mouse
// ---------------------------------------------------------------------------------------

/// A cell of a part of the screen.
pub open spec fn inside(area: Rect, event: MouseEvent) -> bool {
    &&& area.x <= event.column < area.x + area.width
    &&& area.y <= event.row < area.y + area.height
}

/// The wheel over the list goes down the rows when it is turned down and up when it is turned
/// up, as far as there are rows; over the preview it moves the preview the same way and leaves
/// the row.
pub proof fn the_wheel_walks_what_it_is_over(
    picker: Picker,
    event: MouseEvent,
    len: u32,
    lines: u32,
    now: u64,
    after: Picker,
    task: PickerTask,
)
    requires
        picker.cursor < len,
        picker.cursor + lines <= u32::MAX,
        picker.preview_area.fits(),
        picker.moused(event, len, lines, now, after, task),
    ensures
        event.kind == MouseEventKind::ScrollDown && !inside(picker.preview_area, event) ==> {
            &&& only_moved(picker, after, task)
            &&& picker.cursor <= after.cursor < len
            &&& after.cursor == picker.cursor + lines || after.cursor == len - 1
            &&& picker.cursor + lines < len ==> after.cursor == picker.cursor + lines
        },
        event.kind == MouseEventKind::ScrollUp && !inside(picker.preview_area, event) ==> {
            &&& only_moved(picker, after, task)
            &&& after.cursor <= picker.cursor
            &&& lines <= picker.cursor ==> after.cursor == picker.cursor - lines
            &&& lines > picker.cursor ==> after.cursor == 0
        },
        event.kind == MouseEventKind::ScrollDown && inside(picker.preview_area, event) ==> {
            &&& task == PickerTask::Nothing && after.cursor == picker.cursor
            &&& after.preview_scroll.row == picker.cursor
            &&& picker.preview_scroll.row == picker.cursor && picker.preview_scroll.lines + lines
                <= i64::MAX ==> after.preview_scroll.lines == picker.preview_scroll.lines + lines
            &&& picker.preview_scroll.row != picker.cursor ==> after.preview_scroll.lines == lines
        },
        event.kind == MouseEventKind::ScrollUp && inside(picker.preview_area, event) ==> {
            &&& task == PickerTask::Nothing && after.cursor == picker.cursor
            &&& after.preview_scroll.row == picker.cursor
            &&& picker.preview_scroll.row == picker.cursor && i64::MIN
                <= picker.preview_scroll.lines - lines ==> after.preview_scroll.lines
                == picker.preview_scroll.lines - lines
            &&& picker.preview_scroll.row != picker.cursor ==> after.preview_scroll.lines == -lines
        },
{
}

proof fn lemma_switch_under(picker: Picker, k: int, event: MouseEvent)
    requires
        0 <= k <= picker.toggle_areas@.len(),
        forall|i: int|
            k <= i < picker.toggle_areas@.len() ==> (#[trigger] picker.toggle_areas@[i]).y
                != event.row,
    ensures
        picker.switch_under(k, event) == picker.toggle_areas@.len(),
    decreases picker.toggle_areas@.len() - k,
{
    if k < picker.toggle_areas@.len() {
        assert(picker.toggle_areas@[k].y != event.row);
        lemma_switch_under(picker, k + 1, event);
    }
}

proof fn lemma_box_under(picker: Picker, k: int, event: MouseEvent)
    requires
        0 <= k <= picker.field_areas@.len(),
        forall|i: int|
            k <= i < picker.field_areas@.len() ==> (#[trigger] picker.field_areas@[i]).1.y
                != event.row,
    ensures
        picker.box_under(k, event) == picker.field_areas@.len(),
    decreases picker.field_areas@.len() - k,
{
    if k < picker.field_areas@.len() {
        assert(picker.field_areas@[k].1.y != event.row);
        lemma_box_under(picker, k + 1, event);
    }
}

/// A row that is drawn below the inputs is put in focus by a click on it, the first drawn by a
/// click on the first line; a second click on the same row soon after opens it, and no other
/// click does.
pub proof fn a_click_takes_the_row_under_it(
    picker: Picker,
    event: MouseEvent,
    len: u32,
    lines: u32,
    now: u64,
    after: Picker,
    task: PickerTask,
)
    requires
        event.kind == MouseEventKind::Down(MouseButton::Left),
        picker.rows_area.fits(),
        inside(picker.rows_area, event),
        picker.rows_offset + (event.row - picker.rows_area.y) < len,
        picker.query_area.y != event.row,
        picker.button_area matches Some(area) ==> area.y != event.row,
        forall|i: int|
            0 <= i < picker.toggle_areas@.len() ==> (#[trigger] picker.toggle_areas@[i]).y
                != event.row,
        forall|i: int|
            0 <= i < picker.field_areas@.len() ==> (#[trigger] picker.field_areas@[i]).1.y
                != event.row,
        picker.moused(event, len, lines, now, after, task),
    ensures
        after.cursor == picker.rows_offset + (event.row - picker.rows_area.y),
        after.focus == picker.focus,
        task == PickerTask::Accept <==> (picker.last_click matches Some((row, at)) && row
            == after.cursor && now < at + DOUBLE_CLICK),
        task != PickerTask::Accept ==> task == PickerTask::Nothing && after.last_click == Some(
            (after.cursor, now),
        ),
        // A third click is a first one again.
        task == PickerTask::Accept ==> after.last_click is None,
{
    lemma_switch_under(picker, 0, event);
    lemma_box_under(picker, 0, event);
}

/// A click on the query line, left of what stands behind it, puts the cursor there.
pub proof fn a_click_on_the_query_line_goes_there(
    picker: Picker,
    event: MouseEvent,
    len: u32,
    lines: u32,
    now: u64,
    after: Picker,
    task: PickerTask,
)
    requires
        event.kind == MouseEventKind::Down(MouseButton::Left),
        picker.query_area.fits(),
        inside(picker.query_area, event),
        picker.query_area.height == 1,
        picker.button_area matches Some(area) ==> !inside(Rect { height: 1, ..area }, event),
        forall|i: int|
            0 <= i < picker.toggle_areas@.len() ==> event.column < (
            #[trigger] picker.toggle_areas@[i]).x,
        picker.moused(event, len, lines, now, after, task),
    ensures
        task == PickerTask::Nothing && after == (Picker { focus: Focus::Query, ..picker }),
{
    lemma_switches_right(picker, 0, event);
}

proof fn lemma_switches_right(picker: Picker, k: int, event: MouseEvent)
    requires
        0 <= k <= picker.toggle_areas@.len(),
        forall|i: int|
            k <= i < picker.toggle_areas@.len() ==> event.column < (
            #[trigger] picker.toggle_areas@[i]).x,
    ensures
        picker.switch_under(k, event) == picker.toggle_areas@.len(),
    decreases picker.toggle_areas@.len() - k,
{
    if k < picker.toggle_areas@.len() {
        assert(event.column < picker.toggle_areas@[k].x);
        lemma_switches_right(picker, k + 1, event);
    }
}

/// Whatever else the mouse does over a picker changes nothing.
pub proof fn other_buttons_do_nothing(
    picker: Picker,
    event: MouseEvent,
    len: u32,
    lines: u32,
    now: u64,
    after: Picker,
    task: PickerTask,
)
    requires
        event.kind != MouseEventKind::Down(MouseButton::Left),
        event.kind != MouseEventKind::ScrollDown,
        event.kind != MouseEventKind::ScrollUp,
        picker.moused(event, len, lines, now, after, task),
    ensures
        task == PickerTask::Nothing && after == picker,
{
}

} // verus!
