//! What the mouse comes to over the text, the gutter and the tabs.

use crate::editor::bufferline::Bufferline;
use crate::editor::mouse::{Click, ClickAction, ClickUnit, Mouse, MouseTask, PointerShape, Under,
    DOUBLE_CLICK};
use crate::graphics::Rect;
use crate::input::{KeyModifiers, MouseButton, MouseEvent, MouseEventKind};
use crate::keymap::Mode;
use vstd::prelude::*;

verus! {

/// A cell of a part of the screen.
pub open spec fn inside(area: Rect, event: MouseEvent) -> bool {
    &&& area.x <= event.column < area.x + area.width
    &&& area.y <= event.row < area.y + area.height
}

/// Nothing is held: no selection, no separator.
pub open spec fn is_free(mouse: Mouse) -> bool {
    !mouse.selecting && mouse.dragged_separator is None
}

/// No panel takes the mouse, and there are files to see.
pub open spec fn off_panels(under: Under) -> bool {
    &&& !under.on_sidebar && !under.resizing_sidebar
    &&& !under.on_preview && !under.resizing_preview
    &&& !under.nothing_open
    &&& under.separator is None
}

/// Everything of the strip ends on the screen's numbers.
pub open spec fn strip_fits(strip: Bufferline) -> bool {
    &&& strip.area.fits()
    &&& strip.back matches Some(mark) ==> mark.fits()
    &&& strip.forward matches Some(mark) ==> mark.fits()
    &&& forall|i: int| 0 <= i < strip.tabs@.len() ==> (#[trigger] strip.tabs@[i]).area.fits()
}

/// The pointer is nowhere on the strip of tabs.
pub open spec fn off_strip(strip: Bufferline, event: MouseEvent) -> bool {
    &&& !inside(strip.area, event)
    &&& strip.back matches Some(mark) ==> !inside(mark, event)
    &&& strip.forward matches Some(mark) ==> !inside(mark, event)
    &&& forall|i: int| 0 <= i < strip.tabs@.len() ==> !inside((#[trigger] strip.tabs@[i]).area, event)
}

/// The pointer is on no mark at the ends of the strip.
pub open spec fn off_marks(strip: Bufferline, event: MouseEvent) -> bool {
    &&& strip.back matches Some(mark) ==> !inside(mark, event)
    &&& strip.forward matches Some(mark) ==> !inside(mark, event)
}

proof fn lemma_no_tab(strip: Bufferline, k: int, event: MouseEvent)
    requires
        0 <= k <= strip.tabs@.len(),
        strip_fits(strip),
        forall|i: int|
            k <= i < strip.tabs@.len() ==> !inside((#[trigger] strip.tabs@[i]).area, event),
    ensures
        strip.tab_under(k, event.row, event.column) == strip.tabs@.len(),
    decreases strip.tabs@.len() - k,
{
    if k < strip.tabs@.len() {
        assert(!inside(strip.tabs@[k].area, event));
        lemma_no_tab(strip, k + 1, event);
    }
}

proof fn lemma_tab(strip: Bufferline, k: int, tab: int, event: MouseEvent)
    requires
        0 <= k <= tab < strip.tabs@.len(),
        strip_fits(strip),
        inside(strip.tabs@[tab].area, event),
        forall|i: int| k <= i < tab ==> !inside((#[trigger] strip.tabs@[i]).area, event),
    ensures
        strip.tab_under(k, event.row, event.column) == tab,
    decreases tab - k,
{
    if k < tab {
        assert(!inside(strip.tabs@[k].area, event));
        lemma_tab(strip, k + 1, tab, event);
    }
}

/// The wheel over the text of a view, with nothing held and nothing before the text, scrolls
/// that view: down when it is turned down and up when it is turned up, and nothing else.
pub proof fn the_wheel_scrolls_the_view_it_is_over(
    mouse: Mouse,
    strip: Bufferline,
    event: MouseEvent,
    under: Under,
    now: u64,
    view: usize,
)
    requires
        is_free(mouse),
        off_panels(under),
        strip_fits(strip),
        off_strip(strip, event),
        under.text_view == Some(view),
    ensures
        event.kind == MouseEventKind::ScrollDown ==> mouse.answered(
            strip,
            event,
            under,
            now,
        ).2.task == (MouseTask::Scroll { view, down: true }),
        event.kind == MouseEventKind::ScrollUp ==> mouse.answered(strip, event, under, now).2.task
            == (MouseTask::Scroll { view, down: false }),
        event.kind == MouseEventKind::ScrollDown || event.kind == MouseEventKind::ScrollUp ==> {
            let (after, first, answer) = mouse.answered(strip, event, under, now);
            &&& after == (Mouse { pointer_shape: after.pointer_shape, ..mouse })
            &&& first == strip.first
            &&& !answer.focus_code && answer.dismiss
        },
{
    lemma_no_tab(strip, 0, event);
}

/// The wheel over the tabs goes from file to file: to the one before when it is turned up, to
/// the next when it is turned down.
pub proof fn the_wheel_over_the_tabs_changes_the_file(
    mouse: Mouse,
    strip: Bufferline,
    event: MouseEvent,
    under: Under,
    now: u64,
)
    requires
        is_free(mouse),
        off_panels(under),
        strip_fits(strip),
        inside(strip.area, event),
    ensures
        event.kind == MouseEventKind::ScrollUp ==> mouse.answered(strip, event, under, now).2.task
            == MouseTask::PreviousBuffer,
        event.kind == MouseEventKind::ScrollDown ==> mouse.answered(
            strip,
            event,
            under,
            now,
        ).2.task == MouseTask::NextBuffer,
        event.kind == MouseEventKind::ScrollUp || event.kind == MouseEventKind::ScrollDown
            ==> mouse.answered(strip, event, under, now).1 == strip.first,
{
}

/// A click on a tab goes to its file, one on its cross or right beside it closes it. The
/// preview's own tab is only ever closed. The right button opens the menu of the file.
pub proof fn a_tab_is_opened_or_closed(
    mouse: Mouse,
    strip: Bufferline,
    event: MouseEvent,
    under: Under,
    now: u64,
    tab: int,
)
    requires
        is_free(mouse),
        off_panels(under),
        strip_fits(strip),
        off_marks(strip, event),
        0 <= tab < strip.tabs@.len(),
        inside(strip.tabs@[tab].area, event),
        forall|i: int| 0 <= i < tab ==> !inside((#[trigger] strip.tabs@[i]).area, event),
    ensures
        ({
            let one = strip.tabs@[tab];
            let near = event.column == one.close || event.column + 1 == one.close || event.column
                == one.close + 1;
            let (after, first, answer) = mouse.answered(strip, event, under, now);
            &&& event.kind == MouseEventKind::Down(MouseButton::Left) ==> first == strip.first
            &&& event.kind == MouseEventKind::Down(MouseButton::Left) && !one.preview && !near
                ==> answer.task == MouseTask::OpenTab(one.doc)
            &&& event.kind == MouseEventKind::Down(MouseButton::Left) && !one.preview && near
                ==> answer.task == MouseTask::CloseTab(one.doc)
            &&& event.kind == MouseEventKind::Down(MouseButton::Left) && one.preview && near
                ==> answer.task == MouseTask::ClosePreview
            &&& event.kind == MouseEventKind::Down(MouseButton::Right) && !one.preview
                ==> answer.task == MouseTask::TabMenu(one.doc)
        }),
{
    lemma_tab(strip, 0, tab, event);
}

/// The marks at the ends of the strip move it by one tab, back and on.
pub proof fn the_marks_move_the_strip(
    mouse: Mouse,
    strip: Bufferline,
    event: MouseEvent,
    under: Under,
    now: u64,
)
    requires
        is_free(mouse),
        off_panels(under),
        strip_fits(strip),
        event.kind == MouseEventKind::Down(MouseButton::Left),
    ensures
        ({
            let (after, first, answer) = mouse.answered(strip, event, under, now);
            let on_back = strip.back matches Some(mark) && inside(mark, event);
            let on_forward = strip.forward matches Some(mark) && inside(mark, event);
            &&& on_back && strip.first > 0 ==> first == strip.first - 1
            &&& !on_back && on_forward && strip.first < usize::MAX ==> first == strip.first + 1
            &&& on_back || on_forward ==> answer.task == MouseTask::Nothing
        }),
{
}

/// A press of the left button on the text puts a caret there, adds one with Alt, goes to the
/// definition with Ctrl or Cmd, and extends the selection where text is being selected; the
/// second of two quick presses on one cell takes the word, the third the line.
pub proof fn a_press_on_the_text_selects_there(
    mouse: Mouse,
    strip: Bufferline,
    event: MouseEvent,
    under: Under,
    now: u64,
    at: usize,
    view: usize,
)
    requires
        is_free(mouse),
        off_panels(under),
        strip_fits(strip),
        off_strip(strip, event),
        under.text == Some((at, view)),
        event.kind == MouseEventKind::Down(MouseButton::Left),
    ensures
        ({
            let none = KeyModifiers { shift: false, control: false, alt: false, meta: false };
            let (after, first, answer) = mouse.answered(strip, event, under, now);
            let again = mouse.last_click matches Some(click) && click.row == event.row
                && click.column == event.column && now < click.at + DOUBLE_CLICK;
            let held = event.modifiers.control || event.modifiers.meta;
            &&& held ==> answer.task == (MouseTask::GotoDefinition { view, at }) && !after.selecting
            &&& !held ==> after.selecting && (answer.task matches MouseTask::Click {
                view: v,
                at: a,
                action,
            } && v == view && a == at)
            &&& event.modifiers == none && !again ==> answer.task == (MouseTask::Click {
                view,
                at,
                action: if under.mode == Mode::Select {
                    ClickAction::Extend
                } else {
                    ClickAction::Caret
                },
            })
            &&& event.modifiers == none && again && mouse.last_click->0.count == 1 ==> answer.task
                == (MouseTask::Click { view, at, action: ClickAction::Take(ClickUnit::Word) })
            &&& event.modifiers == none && again && mouse.last_click->0.count == 2 ==> answer.task
                == (MouseTask::Click { view, at, action: ClickAction::Take(ClickUnit::Line) })
            &&& event.modifiers == (KeyModifiers { alt: true, ..none }) ==> answer.task == (
            MouseTask::Click { view, at, action: ClickAction::Add })
            &&& !held ==> (after.last_click matches Some(click) && click.at == now && click.row
                == event.row && click.column == event.column && (!again ==> click.count == 1))
        }),
{
    lemma_no_tab(strip, 0, event);
}

/// In the gutter the left button sets a breakpoint, and the right one, when it is let go,
/// edits what the breakpoint waits for, or with Alt what it logs.
pub proof fn the_gutter_is_for_breakpoints(
    mouse: Mouse,
    strip: Bufferline,
    event: MouseEvent,
    under: Under,
    now: u64,
    view: usize,
)
    requires
        is_free(mouse),
        off_panels(under),
        strip_fits(strip),
        off_strip(strip, event),
        under.text is None,
        under.gutter == Some(view),
    ensures
        ({
            let none = KeyModifiers { shift: false, control: false, alt: false, meta: false };
            let task = mouse.answered(strip, event, under, now).2.task;
            &&& event.kind == MouseEventKind::Down(MouseButton::Left) && !event.modifiers.control
                && !event.modifiers.meta ==> task == MouseTask::ToggleBreakpoint(view)
            &&& event.kind == MouseEventKind::Up(MouseButton::Right) ==> task == (
            MouseTask::EditBreakpoint { view, log: event.modifiers == (KeyModifiers {
                alt: true,
                ..none
            }) })
        }),
{
    lemma_no_tab(strip, 0, event);
}

/// The right button opens the menu of what is under it, and gives the keys to the text; the
/// middle one pastes where it is let go, if it pastes at all, and with Alt over what is
/// selected.
pub proof fn the_other_buttons_open_menus_and_paste(
    mouse: Mouse,
    strip: Bufferline,
    event: MouseEvent,
    under: Under,
    now: u64,
    at: usize,
    view: usize,
)
    requires
        is_free(mouse),
        off_panels(under),
        strip_fits(strip),
        off_strip(strip, event),
        under.text == Some((at, view)),
    ensures
        ({
            let none = KeyModifiers { shift: false, control: false, alt: false, meta: false };
            let answer = mouse.answered(strip, event, under, now).2;
            &&& event.kind == MouseEventKind::Down(MouseButton::Right) ==> answer.task == (
            MouseTask::TextMenu { view, at }) && answer.focus_code
            &&& event.kind == MouseEventKind::Up(MouseButton::Middle) && !under.middle_click_paste
                ==> answer.task == MouseTask::Ignored
            &&& event.kind == MouseEventKind::Up(MouseButton::Middle) && under.middle_click_paste
                && event.modifiers == none ==> answer.task == (MouseTask::PasteAt { view, at })
            &&& event.kind == MouseEventKind::Up(MouseButton::Middle) && under.middle_click_paste
                && event.modifiers == (KeyModifiers { alt: true, ..none }) ==> answer.task
                == MouseTask::ReplaceWithYank
        }),
{
    lemma_no_tab(strip, 0, event);
}

/// A separator between two splits follows the button from where it goes down on it until it is
/// let go.
pub proof fn a_separator_is_dragged(
    mouse: Mouse,
    strip: Bufferline,
    event: MouseEvent,
    under: Under,
    now: u64,
)
    requires
        !mouse.selecting,
        !under.on_sidebar && !under.resizing_sidebar,
        !under.on_preview && !under.resizing_preview,
        !under.nothing_open,
    ensures
        ({
            let (after, first, answer) = mouse.answered(strip, event, under, now);
            &&& event.kind == MouseEventKind::Down(MouseButton::Left) ==> (
            under.separator matches Some(separator) ==> after.dragged_separator == Some(separator)
                && answer.task == MouseTask::Nothing && !after.selecting)
            &&& event.kind == MouseEventKind::Drag(MouseButton::Left) ==> (
            mouse.dragged_separator matches Some(separator) ==> after.dragged_separator == Some(
                separator,
            ) && answer.task == MouseTask::DragSeparator(separator))
            &&& event.kind == MouseEventKind::Up(MouseButton::Left) && mouse.dragged_separator is Some
                ==> after.dragged_separator is None && answer.task == MouseTask::Nothing
        }),
{
}

/// What is a panel's goes to the panel: the sidebar before all, then the preview. A press
/// outside the sidebar takes the keys from it.
pub proof fn a_panel_gets_its_mouse(
    mouse: Mouse,
    strip: Bufferline,
    event: MouseEvent,
    under: Under,
    now: u64,
)
    requires
        !mouse.selecting,
    ensures
        ({
            let (after, first, answer) = mouse.answered(strip, event, under, now);
            let sidebar = under.on_sidebar || under.resizing_sidebar;
            let preview = under.on_preview || under.resizing_preview;
            &&& sidebar ==> answer.task == MouseTask::Sidebar && !answer.focus_code
            &&& !sidebar && preview ==> answer.task == MouseTask::Preview
            &&& !sidebar && event.kind is Down && under.sidebar_focused ==> answer.focus_code
            &&& !sidebar && !preview && under.nothing_open && !under.code_hidden && event.kind
                == MouseEventKind::Down(MouseButton::Left) ==> (under.welcome matches Some(line)
                ==> answer.task == MouseTask::RunWelcome(line))
            &&& first == strip.first || !(sidebar || preview)
        }),
{
}

/// The pointer is a text beam over the text of a view, its status line left out, and an arrow
/// over a panel; the terminal is asked for another shape only when it is another.
pub proof fn the_pointer_tells_text_from_panels(
    mouse: Mouse,
    strip: Bufferline,
    event: MouseEvent,
    under: Under,
    now: u64,
    k: int,
)
    requires
        0 <= k < under.views@.len(),
        under.views@[k].1.fits(),
    ensures
        ({
            let (after, first, answer) = mouse.answered(strip, event, under, now);
            let area = under.views@[k].1;
            &&& !under.on_sidebar && !under.on_preview && !under.nothing_open && inside(area, event)
                && event.row + 1 < area.y + area.height ==> after.pointer_shape == Some(
                PointerShape::Text,
            )
            &&& under.on_sidebar || under.on_preview || under.nothing_open ==> after.pointer_shape
                == Some(PointerShape::Default)
            &&& answer.shape is Some <==> after.pointer_shape != mouse.pointer_shape
            &&& answer.shape is Some ==> answer.shape == after.pointer_shape
        }),
{
}

} // verus!
