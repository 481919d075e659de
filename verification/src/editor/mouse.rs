//! What the mouse asks of the editor.

use crate::editor::bufferline::{Bufferline, BufferlineHit};
use crate::graphics::{less, max, min, Rect};
use crate::input::{KeyModifiers, MouseButton, MouseEvent, MouseEventKind};
use crate::keymap::Mode;
use vstd::prelude::*;

verus! {

/// How many lines a click has to land away from the cursor to count as a jump.
pub const JUMP_LINES: usize = 10;

/// How soon after a click, in milliseconds, a second one on the same cell counts as a double
/// click.
pub const DOUBLE_CLICK: u64 = 500;

/// How long, in milliseconds, the pointer rests on the text before what is under it is asked
/// for.
pub const HOVER_DELAY: u64 = 400;

/// A click in the text.
#[derive(Debug, Clone, Copy, PartialEq, Eq, Structural)]
pub struct Click {
    pub at: u64,
    pub row: u16,
    pub column: u16,
    /// One for a click, two for a double click, three for a triple.
    pub count: u8,
}

/// What a double or a triple click takes.
#[derive(Debug, Clone, Copy, PartialEq, Eq, Structural)]
pub enum ClickUnit {
    Word,
    Line,
}

#[derive(Debug, Clone, Copy, PartialEq, Eq, Structural)]
pub enum PointerShape {
    Text,
    Default,
}

/// A selection, from its anchor to its head.
#[derive(Debug, Clone, Copy, PartialEq, Eq, Structural)]
pub struct Range {
    pub anchor: usize,
    pub head: usize,
}

impl Range {
    pub open spec fn spec_from(self) -> usize {
        min(self.anchor as int, self.head as int) as usize
    }

    pub open spec fn spec_to(self) -> usize {
        max(self.anchor as int, self.head as int) as usize
    }

    pub fn from(self) -> (r: usize)
        ensures
            r == self.spec_from(),
    {
        if self.anchor < self.head {
            self.anchor
        } else {
            self.head
        }
    }

    pub fn to(self) -> (r: usize)
        ensures
            r == self.spec_to(),
    {
        if self.anchor < self.head {
            self.head
        } else {
            self.anchor
        }
    }
}

/// What of the mouse is remembered from one event to the next.
#[derive(Debug, Clone, Copy, PartialEq, Eq)]
pub struct Mouse {
    /// The split separator being dragged: the mouse is its until the button is let go.
    pub dragged_separator: Option<usize>,
    /// The last click in the text, for a second and a third one on the same cell to take the
    /// word and the line.
    pub last_click: Option<Click>,
    /// What a drag after a double or a triple click extends by, from the unit clicked.
    pub drag_unit: Option<(ClickUnit, Range)>,
    /// The button went down on the text and is still held: the mouse selects until it is let
    /// go, wherever the pointer goes.
    pub selecting: bool,
    /// Where the pointer rests, by row and column.
    pub pointer: Option<(u16, u16)>,
    /// The pointer shape last asked of the terminal, so it is asked again only on a change.
    pub pointer_shape: Option<PointerShape>,
    /// When it last moved, in milliseconds.
    pub moved_at: u64,
    /// A hover timer is waiting; a move while it waits pushes it back, never adds one.
    pub hover_armed: bool,
    /// The document and the place in it the hover popup was asked for, not asked again while
    /// the pointer stays on it.
    pub hover_shown: Option<(usize, usize)>,
}

/// What is under the pointer, and what else decides what the mouse does.
#[derive(Debug)]
pub struct Under {
    pub mode: Mode,
    /// The pointer is on the sidebar, or the sidebar's separator is being dragged.
    pub on_sidebar: bool,
    pub resizing_sidebar: bool,
    pub sidebar_focused: bool,
    pub code_hidden: bool,
    pub on_preview: bool,
    pub resizing_preview: bool,
    pub nothing_open: bool,
    /// The line of the welcome screen, by number.
    pub welcome: Option<usize>,
    /// The separator between two splits.
    pub separator: Option<usize>,
    /// The place in the text and the view it is in, with what is drawn between the text but
    /// is none of it taken for the text beside it.
    pub text: Option<(usize, usize)>,
    /// The view whose text is there, what is drawn between the text left out.
    pub text_view: Option<usize>,
    /// The view whose gutter is there.
    pub gutter: Option<usize>,
    /// The views on screen and their places, the status line of each included.
    pub views: Vec<(usize, Rect)>,
    /// Whether the middle button pastes.
    pub middle_click_paste: bool,
}

/// What a click in the text does to the selection.
#[derive(Debug, Clone, Copy, PartialEq, Eq, Structural)]
pub enum ClickAction {
    /// Takes the word or the line, and typing over it replaces it.
    Take(ClickUnit),
    /// One more caret.
    Add,
    /// The primary selection, and only it, goes up to there.
    Extend,
    /// A caret, whatever was selected before, that selects nothing.
    Caret,
}

/// What is left to do once the mouse has been read.
#[derive(Debug, Clone, Copy, PartialEq, Eq, Structural)]
pub enum MouseTask {
    /// Nobody's.
    Ignored,
    Nothing,
    /// The selection goes to the pointer.
    DragSelection,
    /// The same, and with that it is done.
    EndSelection,
    /// What was selected is done.
    SelectionDone,
    Sidebar,
    Preview,
    RunWelcome(usize),
    /// A separator goes to the pointer; where there is none any more, that is to be told.
    DragSeparator(usize),
    PreviousBuffer,
    NextBuffer,
    OpenTab(usize),
    ClosePreview,
    CloseTab(usize),
    TabMenu(usize),
    /// The menu of the text, with the caret taken there first where it points outside of what
    /// is selected.
    TextMenu { view: usize, at: usize },
    /// The menu of a view that has no text there.
    ViewMenu(usize),
    /// The definition of what is at a place.
    GotoDefinition { view: usize, at: usize },
    Click { view: usize, at: usize, action: ClickAction },
    /// A breakpoint on the line of a gutter.
    ToggleBreakpoint(usize),
    /// Scrolls a view that need not be the one in focus, down or up.
    Scroll { view: usize, down: bool },
    /// What a breakpoint waits for, or what it logs, on the line of a gutter.
    EditBreakpoint { view: usize, log: bool },
    /// The caret goes to a place of a view.
    CaretAt { view: usize, at: usize },
    ReplaceWithYank,
    PasteAt { view: usize, at: usize },
}

/// Whether a task closes the preview that fills the screen. Going to a file does too: the
/// preview is what the screen was showing.
pub fn closes_preview(task: MouseTask) -> (r: bool)
    ensures
        r == (task is OpenTab || task is ClosePreview),
{
    matches!(task, MouseTask::OpenTab(_) | MouseTask::ClosePreview)
}

/// What the mouse asks for.
#[derive(Debug, Clone, Copy, PartialEq, Eq, Structural)]
pub struct MouseAnswer {
    /// Whatever keys were pending are dismissed first.
    pub dismiss: bool,
    /// The hover timer starts.
    pub arm_hover: bool,
    /// Another pointer shape is asked of the terminal.
    pub shape: Option<PointerShape>,
    /// The keys are given back to the text: whatever had them, what is typed next is typed
    /// into the file.
    pub focus_code: bool,
    pub task: MouseTask,
}

pub open spec fn left(kind: MouseEventKind) -> bool {
    kind == MouseEventKind::Down(MouseButton::Left)
}

pub open spec fn is_press(kind: MouseEventKind) -> bool {
    kind is Down
}

/// Whether one of the views from `k` on has its text under a cell: the last row of a view is
/// its status line.
pub open spec fn on_some_text(views: Seq<(usize, Rect)>, row: u16, column: u16) -> bool {
    exists|i: int|
        0 <= i < views.len() && {
            let area = (#[trigger] views[i]).1;
            area.y <= row && row + 1 < area.spec_bottom() && area.x <= column && column
                < area.spec_right()
        }
}

/// A text beam over text and an arrow over everything else: the sidebar, the tabs, the
/// welcome screen.
pub open spec fn shape_over(under: Under, row: u16, column: u16) -> PointerShape {
    if !under.on_sidebar && !under.on_preview && !under.nothing_open && on_some_text(
        under.views@,
        row,
        column,
    ) {
        PointerShape::Text
    } else {
        PointerShape::Default
    }
}

/// The first view from `k` on that a cell is in.
pub open spec fn view_under(views: Seq<(usize, Rect)>, k: int, row: u16, column: u16) -> Option<usize>
    decreases views.len() - k,
{
    if k >= views.len() {
        None
    } else if views[k].1.holds(row as int, column as int) {
        Some(views[k].0)
    } else {
        view_under(views, k + 1, row, column)
    }
}

/// A mark of the strip of tabs under a cell.
pub open spec fn on_mark(mark: Option<Rect>, row: u16, column: u16) -> bool {
    mark matches Some(area) && area.holds(row as int, column as int)
}

/// The mouse with the strip's first tab, and what is asked for.
#[verifier::ext_equal]
pub struct Outcome {
    pub mouse: Mouse,
    pub first: usize,
    pub focus_code: bool,
    pub task: MouseTask,
}

impl Mouse {
    /// Whether the pointer is somewhere it was not.
    pub open spec fn moves(self, event: MouseEvent) -> bool {
        event.kind == MouseEventKind::Moved && self.pointer != Some((event.row, event.column))
    }

    /// A move stores where the pointer is and arms the timer, nothing more: the terminal
    /// reports every cell crossed, and none of them is worth a frame.
    pub open spec fn pointed(self, event: MouseEvent, now: u64) -> Mouse {
        if self.moves(event) {
            Mouse {
                pointer: Some((event.row, event.column)),
                moved_at: now,
                hover_armed: true,
                ..self
            }
        } else {
            self
        }
    }

    /// How many clicks this one makes on its cell: one, two, three, and one again.
    pub open spec fn clicks(self, event: MouseEvent, now: u64) -> int {
        match self.last_click {
            Some(click) => if click.row == event.row && click.column == event.column && less(
                now as int,
                click.at as int,
            ) < DOUBLE_CLICK {
                click.count as int % 3 + 1
            } else {
                1
            },
            None => 1,
        }
    }

    /// What a click does to the selection.
    pub open spec fn click_action(count: int, modifiers: KeyModifiers, mode: Mode) -> ClickAction {
        if count > 1 && modifiers == KeyModifiers::spec_none() {
            if count == 2 {
                ClickAction::Take(ClickUnit::Word)
            } else {
                ClickAction::Take(ClickUnit::Line)
            }
        } else if modifiers == (KeyModifiers { alt: true, ..KeyModifiers::spec_none() }) {
            ClickAction::Add
        } else if mode == Mode::Select {
            ClickAction::Extend
        } else {
            ClickAction::Caret
        }
    }

    /// What the left button does where nothing has taken it before: held with Ctrl, or Cmd
    /// where the terminal passes it on, a click goes to the definition of what it landed on;
    /// else it selects in the text, and in the gutter sets a breakpoint.
    pub open spec fn pressed(self, event: MouseEvent, under: Under, now: u64) -> (Mouse, MouseTask) {
        let count = self.clicks(event, now);
        let plain = Mouse { drag_unit: None, ..self };
        if event.modifiers.control || event.modifiers.meta {
            (
                self,
                match under.text {
                    Some((at, view)) => MouseTask::GotoDefinition { view, at },
                    None => MouseTask::Ignored,
                },
            )
        } else {
            match (under.text, under.gutter) {
                (Some((at, view)), _) => (
                    Mouse {
                        selecting: true,
                        last_click: Some(
                            Click {
                                at: now,
                                row: event.row,
                                column: event.column,
                                count: count as u8,
                            },
                        ),
                        ..plain
                    },
                    MouseTask::Click {
                        view,
                        at,
                        action: Mouse::click_action(count, event.modifiers, under.mode),
                    },
                ),
                (None, Some(view)) => (plain, MouseTask::ToggleBreakpoint(view)),
                (None, None) => (plain, MouseTask::Ignored),
            }
        }
    }

    /// What the mouse does to the views, where nothing has taken it before.
    pub open spec fn in_views(self, event: MouseEvent, under: Under, now: u64) -> (Mouse, MouseTask) {
        let alt = event.modifiers == (KeyModifiers { alt: true, ..KeyModifiers::spec_none() });
        match event.kind {
            MouseEventKind::Down(MouseButton::Left) => self.pressed(event, under, now),
            MouseEventKind::Drag(MouseButton::Left) => (self, MouseTask::DragSelection),
            MouseEventKind::ScrollUp | MouseEventKind::ScrollDown => (
                self,
                match under.text_view {
                    Some(view) => MouseTask::Scroll {
                        view,
                        down: event.kind == MouseEventKind::ScrollDown,
                    },
                    None => MouseTask::Ignored,
                },
            ),
            MouseEventKind::Up(MouseButton::Left) => (self, MouseTask::SelectionDone),
            MouseEventKind::Up(MouseButton::Right) => (
                self,
                match (under.gutter, under.text) {
                    (Some(view), Some((at, _))) => MouseTask::CaretAt { view, at },
                    (Some(view), None) => MouseTask::EditBreakpoint { view, log: alt },
                    (None, _) => MouseTask::Ignored,
                },
            ),
            MouseEventKind::Up(MouseButton::Middle) => (
                self,
                if !under.middle_click_paste {
                    MouseTask::Ignored
                } else if alt {
                    MouseTask::ReplaceWithYank
                } else {
                    match under.text {
                        Some((at, view)) => MouseTask::PasteAt { view, at },
                        None => MouseTask::Ignored,
                    }
                },
            ),
            _ => (self, MouseTask::Ignored),
        }
    }

    /// What the tabs take: the marks at their ends, the wheel over them, a click on one.
    pub open spec fn on_strip(self, strip: Bufferline, event: MouseEvent) -> Option<
        (usize, MouseTask),
    > {
        let row = event.row;
        let column = event.column;
        if left(event.kind) && on_mark(strip.back, row, column) {
            Some((less(strip.first as int, 1) as usize, MouseTask::Nothing))
        } else if left(event.kind) && on_mark(strip.forward, row, column) {
            Some((min(strip.first + 1, usize::MAX as int) as usize, MouseTask::Nothing))
        } else if strip.area.holds(row as int, column as int) && event.kind
            == MouseEventKind::ScrollUp {
            Some((strip.first, MouseTask::PreviousBuffer))
        } else if strip.area.holds(row as int, column as int) && event.kind
            == MouseEventKind::ScrollDown {
            Some((strip.first, MouseTask::NextBuffer))
        } else if left(event.kind) {
            match strip.hit(row, column) {
                Some(BufferlineHit::Open(doc)) => Some((strip.first, MouseTask::OpenTab(doc))),
                Some(BufferlineHit::ClosePreview) => Some((strip.first, MouseTask::ClosePreview)),
                Some(BufferlineHit::Close(doc)) => Some((strip.first, MouseTask::CloseTab(doc))),
                None => None,
            }
        } else {
            None
        }
    }

    /// What the right button opens: what can be done to what is under it.
    pub open spec fn menu(strip: Bufferline, event: MouseEvent, under: Under) -> Option<MouseTask> {
        if event.kind != MouseEventKind::Down(MouseButton::Right) {
            None
        } else {
            match strip.hit(event.row, event.column) {
                Some(BufferlineHit::Open(doc)) => Some(MouseTask::TabMenu(doc)),
                Some(BufferlineHit::Close(doc)) => Some(MouseTask::TabMenu(doc)),
                _ => match under.text {
                    Some((at, view)) => Some(MouseTask::TextMenu { view, at }),
                    None => match view_under(under.views@, 0, event.row, event.column) {
                        Some(view) => Some(MouseTask::ViewMenu(view)),
                        None => None,
                    },
                },
            }
        }
    }

    /// What is behind the panels: the separators of the splits, the tabs, the text.
    pub open spec fn behind_panels(
        self,
        strip: Bufferline,
        event: MouseEvent,
        under: Under,
        now: u64,
    ) -> (Mouse, usize, MouseTask) {
        let dropped = Mouse { dragged_separator: None, ..self };
        if self.dragged_separator is Some && event.kind == MouseEventKind::Drag(MouseButton::Left) {
            (self, strip.first, MouseTask::DragSeparator(self.dragged_separator->0))
        } else if self.dragged_separator is Some && event.kind == MouseEventKind::Up(
            MouseButton::Left,
        ) {
            (dropped, strip.first, MouseTask::Nothing)
        } else if left(event.kind) && under.separator is Some {
            (
                Mouse { dragged_separator: under.separator, ..self },
                strip.first,
                MouseTask::Nothing,
            )
        } else {
            match dropped.on_strip(strip, event) {
                Some((first, task)) => (dropped, first, task),
                None => match Mouse::menu(strip, event, under) {
                    Some(task) => (dropped, strip.first, task),
                    None => {
                        let (mouse, task) = dropped.in_views(event, under, now);
                        (mouse, strip.first, task)
                    },
                },
            }
        }
    }

    /// What the mouse asks for, once the pointer has been followed. A drag that started on
    /// the text stays the text's, and one of a panel's separator the panel's, wherever the
    /// pointer goes.
    pub open spec fn outcome(
        self,
        strip: Bufferline,
        event: MouseEvent,
        under: Under,
        now: u64,
    ) -> Outcome {
        let first = strip.first;
        // A move with no button held: the release was never reported.
        let ends = event.kind == MouseEventKind::Moved || is_press(event.kind) || event.kind
            == MouseEventKind::Up(MouseButton::Left);
        let mouse = if self.selecting && ends {
            Mouse { selecting: false, ..self }
        } else {
            self
        };
        let focus_code = is_press(event.kind) && under.sidebar_focused;
        if self.selecting && event.kind == MouseEventKind::Drag(MouseButton::Left) {
            Outcome { mouse, first, focus_code: false, task: MouseTask::DragSelection }
        } else if self.selecting && event.kind == MouseEventKind::Up(MouseButton::Left) {
            Outcome { mouse, first, focus_code: false, task: MouseTask::EndSelection }
        } else if under.on_sidebar || under.resizing_sidebar {
            Outcome { mouse, first, focus_code: false, task: MouseTask::Sidebar }
        } else if under.on_preview || under.resizing_preview {
            Outcome { mouse, first, focus_code, task: MouseTask::Preview }
        } else if under.nothing_open && !under.code_hidden {
            Outcome {
                mouse,
                first,
                focus_code,
                task: if left(event.kind) && under.welcome is Some {
                    MouseTask::RunWelcome(under.welcome->0)
                } else {
                    MouseTask::Nothing
                },
            }
        } else {
            let (mouse, first, task) = mouse.behind_panels(strip, event, under, now);
            Outcome {
                mouse,
                first,
                focus_code: focus_code || task is TextMenu || task is ViewMenu,
                task,
            }
        }
    }

    pub fn new() -> (r: Mouse)
        ensures
            r == (Mouse {
                dragged_separator: None,
                last_click: None,
                drag_unit: None,
                selecting: false,
                pointer: None,
                pointer_shape: None,
                moved_at: 0,
                hover_armed: false,
                hover_shown: None,
            }),
    {
        Mouse {
            dragged_separator: None,
            last_click: None,
            drag_unit: None,
            selecting: false,
            pointer: None,
            pointer_shape: None,
            moved_at: 0,
            hover_armed: false,
            hover_shown: None,
        }
    }

    /// A text beam over text and an arrow over everything else, asked of the terminal once it
    /// changes.
    pub fn set_pointer_shape(&mut self, row: u16, column: u16, under: &Under) -> (r: Option<
        PointerShape,
    >)
        ensures
            ({
                let shape = shape_over(*under, row, column);
                &&& *final(self) == (Mouse { pointer_shape: Some(shape), ..*old(self) })
                &&& r == if old(self).pointer_shape == Some(shape) {
                    None
                } else {
                    Some(shape)
                }
            }),
    {
        let over: bool = !under.on_sidebar && !under.on_preview && !under.nothing_open
            && find_text(&under.views, row, column);
        let shape: PointerShape = if over {
            PointerShape::Text
        } else {
            PointerShape::Default
        };
        let same: bool = match self.pointer_shape {
            Some(before) => before == shape,
            None => false,
        };
        self.pointer_shape = Some(shape);
        if same {
            None
        } else {
            Some(shape)
        }
    }

    fn press(&mut self, event: MouseEvent, under: &Under, now: u64) -> (r: MouseTask)
        ensures
            (*final(self), r) == old(self).pressed(event, *under, now),
    {
        if event.modifiers.control || event.modifiers.meta {
            return match under.text {
                Some((at, view)) => MouseTask::GotoDefinition { view, at },
                None => MouseTask::Ignored,
            };
        }
        let count: u8 = match self.last_click {
            Some(click) => if click.row == event.row && click.column == event.column
                && now.saturating_sub(click.at) < DOUBLE_CLICK {
                click.count % 3 + 1
            } else {
                1
            },
            None => 1,
        };
        self.drag_unit = None;
        match (under.text, under.gutter) {
            (Some((at, view)), _) => {
                self.selecting = true;
                self.last_click =
                Some(Click { at: now, row: event.row, column: event.column, count });
                let action: ClickAction = if count > 1 && event.modifiers.is_empty() {
                    if count == 2 {
                        ClickAction::Take(ClickUnit::Word)
                    } else {
                        ClickAction::Take(ClickUnit::Line)
                    }
                } else if only_alt(event.modifiers) {
                    ClickAction::Add
                } else if under.mode == Mode::Select {
                    ClickAction::Extend
                } else {
                    ClickAction::Caret
                };
                MouseTask::Click { view, at, action }
            },
            (None, Some(view)) => MouseTask::ToggleBreakpoint(view),
            (None, None) => MouseTask::Ignored,
        }
    }

    fn use_views(&mut self, event: MouseEvent, under: &Under, now: u64) -> (r: MouseTask)
        ensures
            (*final(self), r) == old(self).in_views(event, *under, now),
    {
        let alt: bool = only_alt(event.modifiers);
        match event.kind {
            MouseEventKind::Down(MouseButton::Left) => self.press(event, under, now),
            MouseEventKind::Drag(MouseButton::Left) => MouseTask::DragSelection,
            MouseEventKind::ScrollUp => match under.text_view {
                Some(view) => MouseTask::Scroll { view, down: false },
                None => MouseTask::Ignored,
            },
            MouseEventKind::ScrollDown => match under.text_view {
                Some(view) => MouseTask::Scroll { view, down: true },
                None => MouseTask::Ignored,
            },
            MouseEventKind::Up(MouseButton::Left) => MouseTask::SelectionDone,
            MouseEventKind::Up(MouseButton::Right) => match (under.gutter, under.text) {
                (Some(view), Some((at, _))) => MouseTask::CaretAt { view, at },
                (Some(view), None) => MouseTask::EditBreakpoint { view, log: alt },
                (None, _) => MouseTask::Ignored,
            },
            MouseEventKind::Up(MouseButton::Middle) => {
                if !under.middle_click_paste {
                    MouseTask::Ignored
                } else if alt {
                    MouseTask::ReplaceWithYank
                } else {
                    match under.text {
                        Some((at, view)) => MouseTask::PasteAt { view, at },
                        None => MouseTask::Ignored,
                    }
                }
            },
            _ => MouseTask::Ignored,
        }
    }

    fn use_strip(&self, strip: &Bufferline, event: MouseEvent) -> (r: Option<(usize, MouseTask)>)
        ensures
            r == self.on_strip(*strip, event),
    {
        let press: bool = event.kind == MouseEventKind::Down(MouseButton::Left);
        if press && is_on(strip.back, event.row, event.column) {
            return Some((strip.first.saturating_sub(1), MouseTask::Nothing));
        }
        if press && is_on(strip.forward, event.row, event.column) {
            return Some((strip.first.saturating_add(1), MouseTask::Nothing));
        }
        if strip.area.contains(event.row, event.column) {
            match event.kind {
                MouseEventKind::ScrollUp => {
                    return Some((strip.first, MouseTask::PreviousBuffer));
                },
                MouseEventKind::ScrollDown => {
                    return Some((strip.first, MouseTask::NextBuffer));
                },
                _ => {},
            }
        }
        if !press {
            return None;
        }
        match strip.bufferline_hit(event.row, event.column) {
            Some(BufferlineHit::Open(doc)) => Some((strip.first, MouseTask::OpenTab(doc))),
            Some(BufferlineHit::ClosePreview) => Some((strip.first, MouseTask::ClosePreview)),
            Some(BufferlineHit::Close(doc)) => Some((strip.first, MouseTask::CloseTab(doc))),
            None => None,
        }
    }

    fn open_menu(strip: &Bufferline, event: MouseEvent, under: &Under) -> (r: Option<MouseTask>)
        ensures
            r == Mouse::menu(*strip, event, *under),
    {
        if event.kind != MouseEventKind::Down(MouseButton::Right) {
            return None;
        }
        match strip.bufferline_hit(event.row, event.column) {
            Some(BufferlineHit::Open(doc)) => Some(MouseTask::TabMenu(doc)),
            Some(BufferlineHit::Close(doc)) => Some(MouseTask::TabMenu(doc)),
            _ => match under.text {
                Some((at, view)) => Some(MouseTask::TextMenu { view, at }),
                None => match find_view(&under.views, event.row, event.column) {
                    Some(view) => Some(MouseTask::ViewMenu(view)),
                    None => None,
                },
            },
        }
    }

    fn use_behind_panels(
        &mut self,
        strip: &mut Bufferline,
        event: MouseEvent,
        under: &Under,
        now: u64,
    ) -> (r: MouseTask)
        ensures
            (*final(self), final(strip).first, r) == old(self).behind_panels(
                *old(strip),
                event,
                *under,
                now,
            ),
            *final(strip) == (Bufferline { first: final(strip).first, ..*old(strip) }),
    {
        if let Some(separator) = self.dragged_separator {
            match event.kind {
                MouseEventKind::Drag(MouseButton::Left) => {
                    return MouseTask::DragSeparator(separator);
                },
                MouseEventKind::Up(MouseButton::Left) => {
                    self.dragged_separator = None;
                    return MouseTask::Nothing;
                },
                _ => {
                    self.dragged_separator = None;
                },
            }
        }
        if event.kind == MouseEventKind::Down(MouseButton::Left) && under.separator.is_some() {
            self.dragged_separator = under.separator;
            return MouseTask::Nothing;
        }
        if let Some((first, task)) = self.use_strip(strip, event) {
            strip.first = first;
            return task;
        }
        match Mouse::open_menu(strip, event, under) {
            Some(task) => task,
            None => self.use_views(event, under, now),
        }
    }

    fn decide(&mut self, strip: &mut Bufferline, event: MouseEvent, under: &Under, now: u64) -> (r: (
        bool,
        MouseTask,
    ))
        ensures
            ({
                let outcome = old(self).outcome(*old(strip), event, *under, now);
                &&& *final(self) == outcome.mouse
                &&& final(strip).first == outcome.first
                &&& r == (outcome.focus_code, outcome.task)
            }),
            *final(strip) == (Bufferline { first: final(strip).first, ..*old(strip) }),
    {
        if self.selecting {
            match event.kind {
                MouseEventKind::Drag(MouseButton::Left) => {
                    return (false, MouseTask::DragSelection);
                },
                MouseEventKind::Up(MouseButton::Left) => {
                    self.selecting = false;
                    return (false, MouseTask::EndSelection);
                },
                MouseEventKind::Moved => {
                    self.selecting = false;
                },
                MouseEventKind::Down(_) => {
                    self.selecting = false;
                },
                _ => {},
            }
        }
        if under.on_sidebar || under.resizing_sidebar {
            return (false, MouseTask::Sidebar);
        }
        let press: bool = match event.kind {
            MouseEventKind::Down(_) => true,
            _ => false,
        };
        let focus_code: bool = press && under.sidebar_focused;
        if under.on_preview || under.resizing_preview {
            return (focus_code, MouseTask::Preview);
        }
        if under.nothing_open && !under.code_hidden {
            if event.kind == MouseEventKind::Down(MouseButton::Left) {
                if let Some(line) = under.welcome {
                    return (focus_code, MouseTask::RunWelcome(line));
                }
            }
            return (focus_code, MouseTask::Nothing);
        }
        let task: MouseTask = self.use_behind_panels(strip, event, under, now);
        let menu: bool = match task {
            MouseTask::TextMenu { view: _, at: _ } => true,
            MouseTask::ViewMenu(_) => true,
            _ => false,
        };
        (focus_code || menu, task)
    }

    /// What the mouse remembers behind an event, the first tab drawn, and what it asks for.
    pub open spec fn answered(
        self,
        strip: Bufferline,
        event: MouseEvent,
        under: Under,
        now: u64,
    ) -> (Mouse, usize, MouseAnswer) {
        let pointed = self.pointed(event, now);
        let shape = shape_over(under, event.row, event.column);
        let shaped = Mouse { pointer_shape: Some(shape), ..pointed };
        let outcome = shaped.outcome(strip, event, under, now);
        (
            outcome.mouse,
            outcome.first,
            MouseAnswer {
                dismiss: event.kind != MouseEventKind::Moved,
                arm_hover: self.moves(event) && !self.hover_armed,
                shape: if self.pointer_shape == Some(shape) {
                    None
                } else {
                    Some(shape)
                },
                focus_code: outcome.focus_code,
                task: outcome.task,
            },
        )
    }

    /// Reads the mouse at a time in milliseconds, over what is under the pointer and the
    /// strip of tabs.
    pub fn handle_mouse_event(
        &mut self,
        strip: &mut Bufferline,
        event: MouseEvent,
        under: &Under,
        now: u64,
    ) -> (r: MouseAnswer)
        ensures
            (*final(self), final(strip).first, r) == old(self).answered(
                *old(strip),
                event,
                *under,
                now,
            ),
            *final(strip) == (Bufferline { first: final(strip).first, ..*old(strip) }),
    {
        let moved: bool = event.kind == MouseEventKind::Moved && match self.pointer {
            Some((row, column)) => row != event.row || column != event.column,
            None => true,
        };
        let mut arm_hover: bool = false;
        if moved {
            self.pointer = Some((event.row, event.column));
            self.moved_at = now;
            arm_hover = !self.hover_armed;
            self.hover_armed = true;
        }
        let shape: Option<PointerShape> = self.set_pointer_shape(event.row, event.column, under);
        let (focus_code, task): (bool, MouseTask) = self.decide(strip, event, under, now);
        MouseAnswer {
            dismiss: event.kind != MouseEventKind::Moved,
            arm_hover,
            shape,
            focus_code,
            task,
        }
    }

    /// The separator that was being dragged is no more.
    pub fn separator_lost(&mut self)
        ensures
            *final(self) == (Mouse { dragged_separator: None, ..*old(self) }),
    {
        self.dragged_separator = None;
    }

    /// A double or a triple click took a unit: a drag from there grows by the same.
    pub fn took(&mut self, unit: ClickUnit, range: Range)
        ensures
            *final(self) == (Mouse { drag_unit: Some((unit, range)), ..*old(self) }),
    {
        self.drag_unit = Some((unit, range));
    }
}

fn only_alt(modifiers: KeyModifiers) -> (r: bool)
    ensures
        r == (modifiers == (KeyModifiers { alt: true, ..KeyModifiers::spec_none() })),
{
    modifiers.alt && !modifiers.control && !modifiers.shift && !modifiers.meta
}

fn is_on(mark: Option<Rect>, row: u16, column: u16) -> (r: bool)
    ensures
        r == on_mark(mark, row, column),
{
    match mark {
        Some(area) => area.contains(row, column),
        None => false,
    }
}

fn find_text(views: &Vec<(usize, Rect)>, row: u16, column: u16) -> (r: bool)
    ensures
        r == on_some_text(views@, row, column),
{
    let mut k: usize = 0;
    while k < views.len()
        invariant
            k <= views@.len(),
            forall|i: int|
                0 <= i < k ==> {
                    let area = (#[trigger] views@[i]).1;
                    !(area.y <= row && row + 1 < area.spec_bottom() && area.x <= column && column
                        < area.spec_right())
                },
        decreases views@.len() - k,
    {
        let area: Rect = views[k].1;
        if area.y <= row && (row as u32) + 1 < area.bottom() as u32 && area.x <= column && column
            < area.right() {
            proof {
                assert(views@[k as int].1 == area);
            }
            return true;
        }
        k = k + 1;
    }
    false
}

fn find_view(views: &Vec<(usize, Rect)>, row: u16, column: u16) -> (r: Option<usize>)
    ensures
        r == view_under(views@, 0, row, column),
{
    let mut k: usize = 0;
    while k < views.len()
        invariant
            k <= views@.len(),
            view_under(views@, 0, row, column) == view_under(views@, k as int, row, column),
        decreases views@.len() - k,
    {
        if views[k].1.contains(row, column) {
            return Some(views[k].0);
        }
        k = k + 1;
    }
    None
}

// ---------------------------------------------------------------------------------------
// Clicks and selections
// ---------------------------------------------------------------------------------------

/// Whether a click lands far from the cursor: leaving by clicking is still leaving, and
/// coming back is what the back key is for.
pub fn is_jump(cursor_line: usize, line: usize) -> (r: bool)
    ensures
        r == (cursor_line >= line + JUMP_LINES || line >= cursor_line + JUMP_LINES),
{
    if cursor_line > line {
        cursor_line - line >= JUMP_LINES
    } else {
        line - cursor_line >= JUMP_LINES
    }
}

/// Whether a place is in one of the selections.
pub open spec fn is_selected(ranges: Seq<Range>, at: usize) -> bool {
    exists|i: int|
        0 <= i < ranges.len() && (#[trigger] ranges[i]).spec_from() <= at < ranges[i].spec_to()
}

/// Whether the menu of the text acts on what is selected; pointing outside of it takes the
/// caret there first.
pub fn points_at_selection(ranges: &Vec<Range>, at: usize) -> (r: bool)
    ensures
        r == is_selected(ranges@, at),
{
    let mut k: usize = 0;
    while k < ranges.len()
        invariant
            k <= ranges@.len(),
            forall|i: int|
                0 <= i < k ==> !((#[trigger] ranges@[i]).spec_from() <= at
                    < ranges@[i].spec_to()),
        decreases ranges@.len() - k,
    {
        if ranges[k].from() <= at && at < ranges[k].to() {
            return true;
        }
        k = k + 1;
    }
    false
}

/// The line at a place, as a triple click takes it: `starts` says where each line starts, and
/// last where the text ends.
pub fn line_range(starts: &Vec<usize>, line: usize) -> (r: Range)
    requires
        line + 1 < starts.len(),
    ensures
        r == (Range { anchor: starts@[line as int], head: starts@[line + 1] }),
{
    Range { anchor: starts[line], head: starts[line + 1] }
}

/// A number kept between two others.
pub open spec fn clamped(n: int, low: int, high: int) -> int {
    min(max(n, low), high)
}

/// The cell a drag counts as being on: the nearest of the view, where it is off the text.
pub fn drag_cell(inner: Rect, row: u16, column: u16) -> (r: Option<(u16, u16)>)
    requires
        inner.fits(),
    ensures
        r == if inner.width == 0 || inner.height == 0 {
            None
        } else {
            Some(
                (
                    clamped(row as int, inner.y as int, inner.y + inner.height - 1) as u16,
                    clamped(column as int, inner.x as int, inner.x + inner.width - 1) as u16,
                ),
            )
        },
        r matches Some((row, column)) ==> inner.holds(row as int, column as int),
{
    if inner.width == 0 || inner.height == 0 {
        return None;
    }
    let on_row: u16 = if row < inner.y {
        inner.y
    } else if row > inner.y + (inner.height - 1) {
        inner.y + (inner.height - 1)
    } else {
        row
    };
    let on_column: u16 = if column < inner.x {
        inner.x
    } else if column > inner.x + (inner.width - 1) {
        inner.x + (inner.width - 1)
    } else {
        column
    };
    Some((on_row, on_column))
}

/// The line a drag goes on to where the pointer is above or below the view: the one past the
/// edge, so a drag that leaves the view scrolls it.
pub fn drag_beyond(inner: Rect, row: u16, line: usize, lines: usize) -> (r: Option<usize>)
    ensures
        r == if row < inner.y {
            if line > 0 {
                Some((line - 1) as usize)
            } else {
                None
            }
        } else if row >= inner.spec_bottom() && line + 1 < lines {
            Some((line + 1) as usize)
        } else {
            None
        },
{
    if row < inner.y {
        if line > 0 {
            Some(line - 1)
        } else {
            None
        }
    } else if row >= inner.bottom() && lines > 1 && line < lines - 1 {
        Some(line + 1)
    } else {
        None
    }
}

/// The place a drag is at on another line: as far into it as before, at its end at most.
/// `start` and `end` are where the line it was on starts and where the other one does and
/// ends.
pub fn drag_place(at: usize, line_start: usize, start: usize, end: usize) -> (r: usize)
    requires
        line_start <= at,
    ensures
        r == min(start + (at - line_start), end as int),
{
    let offset: usize = at - line_start;
    let place: usize = start.saturating_add(offset);
    if place < end {
        place
    } else {
        end
    }
}

/// What is selected once a drag is at a place: `here` is the unit at the pointer, `anchor`
/// where the button went down and `put` the selection with its cursor put there.
pub open spec fn dragged(
    unit: Option<(ClickUnit, Range)>,
    here: Range,
    typing: bool,
    anchor: usize,
    at: usize,
    put: Range,
) -> Range {
    match unit {
        Some((_, origin)) => if here.spec_from() >= origin.spec_from() {
            Range { anchor: origin.spec_from(), head: here.spec_to() }
        } else {
            Range { anchor: origin.spec_to(), head: here.spec_from() }
        },
        None => if typing {
            Range { anchor, head: at }
        } else {
            put
        },
    }
}

impl Mouse {
    /// What a drag selects: from the word or line clicked to the one under the pointer, whole;
    /// while typing, from the boundary the button went down on to the one under the pointer,
    /// and never the character past it as well. Answers too whether it covers something:
    /// pressing and letting go on the same spot is a click, and a click leaves a caret.
    pub fn drag_selection(&self, here: Range, typing: bool, anchor: usize, at: usize, put: Range) -> (r: (
        Range,
        bool,
    ))
        ensures
            r.0 == dragged(self.drag_unit, here, typing, anchor, at, put),
            r.1 == (r.0.anchor != r.0.head),
    {
        let range: Range = match self.drag_unit {
            Some((_, origin)) => if here.from() >= origin.from() {
                Range { anchor: origin.from(), head: here.to() }
            } else {
                Range { anchor: origin.to(), head: here.from() }
            },
            None => if typing {
                Range { anchor, head: at }
            } else {
                put
            },
        };
        (range, range.anchor != range.head)
    }
}

/// Whether what the mouse selected goes to the register a middle click pastes from, where that
/// is on: only what is another selection than the one the button went down on, and without
/// one, what is more than a character.
pub fn mouse_selection_done(
    middle_click_paste: bool,
    down: Option<Range>,
    primary: Range,
    len: usize,
) -> (r: bool)
    ensures
        r == (middle_click_paste && match down {
            Some(down) => primary != down,
            None => len > 1,
        }),
{
    middle_click_paste && match down {
        Some(down) => primary.anchor != down.anchor || primary.head != down.head,
        None => len > 1,
    }
}

// ---------------------------------------------------------------------------------------
// Hovering
// ---------------------------------------------------------------------------------------

/// What the hover timer does when it lands.
#[derive(Debug, Clone, Copy, PartialEq, Eq, Structural)]
pub enum HoverStep {
    /// The pointer moved again: wait out the rest.
    Wait,
    Nothing,
    /// Look what is on a cell, by row and column.
    Look(u16, u16),
}

/// What is done about the hover popup.
#[derive(Debug, Clone, Copy, PartialEq, Eq, Structural)]
pub enum HoverLook {
    /// Reading the popup is not asking for another, and one that is open already stays.
    Leave,
    /// The pointer has left the text: the popup closes.
    Close,
    /// The popup closes, and what is at a place of a document is asked for.
    Ask(usize, usize),
}

/// How long the timer still has to wait.
pub open spec fn rest_of(moved_at: u64, now: u64) -> int {
    less(HOVER_DELAY as int, less(now as int, moved_at as int))
}

impl Mouse {
    /// How long, in milliseconds, the timer still has to wait for the pointer to have rested.
    pub fn hover_rest(&self, now: u64) -> (r: u64)
        ensures
            r == rest_of(self.moved_at, now),
    {
        HOVER_DELAY.saturating_sub(now.saturating_sub(self.moved_at))
    }

    /// The hover timer landing: the pointer may have rested on a cell for a while.
    pub fn hover_landed(&mut self, now: u64) -> (r: HoverStep)
        ensures
            r == if rest_of(old(self).moved_at, now) > 0 {
                HoverStep::Wait
            } else {
                match old(self).pointer {
                    Some((row, column)) => HoverStep::Look(row, column),
                    None => HoverStep::Nothing,
                }
            },
            *final(self) == (Mouse { hover_armed: r == HoverStep::Wait, ..*old(self) }),
    {
        if self.hover_rest(now) > 0 {
            self.hover_armed = true;
            return HoverStep::Wait;
        }
        self.hover_armed = false;
        match self.pointer {
            Some((row, column)) => HoverStep::Look(row, column),
            None => HoverStep::Nothing,
        }
    }

    /// What is done about the popup for what is under the pointer: a place in a document, or
    /// no text.
    pub fn hover_look(&self, open: bool, on_popup: bool, under: Option<(usize, usize)>) -> (r:
        HoverLook)
        ensures
            r == if open && on_popup {
                HoverLook::Leave
            } else {
                match under {
                    None => HoverLook::Close,
                    Some((doc, at)) => if open && self.hover_shown == Some((doc, at)) {
                        HoverLook::Leave
                    } else {
                        HoverLook::Ask(doc, at)
                    },
                }
            },
    {
        if open && on_popup {
            return HoverLook::Leave;
        }
        match under {
            None => HoverLook::Close,
            Some((doc, at)) => {
                let same: bool = match self.hover_shown {
                    Some((shown, place)) => shown == doc && place == at,
                    None => false,
                };
                if open && same {
                    HoverLook::Leave
                } else {
                    HoverLook::Ask(doc, at)
                }
            },
        }
    }

    /// Whether there is anything to ask for: what is wrong there, or a server that answers.
    pub fn hover_asks(&mut self, doc: usize, at: usize, diagnostic: bool, servers: usize) -> (r: bool)
        ensures
            r == (diagnostic || servers > 0),
            *final(self) == (Mouse {
                hover_shown: if r {
                    Some((doc, at))
                } else {
                    old(self).hover_shown
                },
                ..*old(self)
            }),
    {
        if !diagnostic && servers == 0 {
            return false;
        }
        self.hover_shown = Some((doc, at));
        true
    }

    /// Whether what was answered is shown: not where the pointer has moved on since the
    /// question was asked, nor where nothing came back.
    pub fn hover_answered(&mut self, doc: usize, at: usize, answers: usize) -> (r: bool)
        ensures
            r == (old(self).hover_shown == Some((doc, at)) && answers > 0),
            *final(self) == (Mouse {
                hover_shown: if old(self).hover_shown == Some((doc, at)) && answers == 0 {
                    None
                } else {
                    old(self).hover_shown
                },
                ..*old(self)
            }),
    {
        let same: bool = match self.hover_shown {
            Some((shown, place)) => shown == doc && place == at,
            None => false,
        };
        if !same {
            return false;
        }
        if answers == 0 {
            self.hover_shown = None;
            return false;
        }
        true
    }
}

// ---------------------------------------------------------------------------------------
// Laws
// ---------------------------------------------------------------------------------------

/// A drag that started on the text stays the text's: wherever the pointer goes, the selection
/// follows it, and where the button is let go is where it ends.
pub proof fn a_drag_stays_the_texts(
    mouse: Mouse,
    strip: Bufferline,
    event: MouseEvent,
    under: Under,
    now: u64,
)
    requires
        mouse.selecting,
    ensures
        event.kind == MouseEventKind::Drag(MouseButton::Left) ==> {
            let after = mouse.outcome(strip, event, under, now);
            after.task == MouseTask::DragSelection && after.mouse.selecting
        },
        event.kind == MouseEventKind::Up(MouseButton::Left) ==> {
            let after = mouse.outcome(strip, event, under, now);
            after.task == MouseTask::EndSelection && !after.mouse.selecting
        },
{
}

/// The pointer merely moving changes nothing that is selected or shown: no task comes of it
/// but a panel's own.
pub proof fn a_move_does_nothing_to_the_text(
    mouse: Mouse,
    strip: Bufferline,
    event: MouseEvent,
    under: Under,
    now: u64,
)
    requires
        event.kind == MouseEventKind::Moved,
    ensures
        ({
            let after = mouse.outcome(strip, event, under, now);
            &&& after.task == MouseTask::Sidebar || after.task == MouseTask::Preview || after.task
                == MouseTask::Nothing || after.task == MouseTask::Ignored
            &&& after.first == strip.first
            &&& !after.mouse.selecting
        }),
{
}

/// Clicks on one cell, one soon after the other, take a caret, the word, the line, and then
/// start over.
pub proof fn clicks_come_round(mouse: Mouse, event: MouseEvent, under: Under, now: u64, soon: u64)
    requires
        under.text is Some,
        !event.modifiers.control && !event.modifiers.meta,
        now <= soon < now + DOUBLE_CLICK,
        mouse.last_click matches Some(click) ==> 1 <= click.count <= 3,
    ensures
        ({
            let count = mouse.clicks(event, now);
            let after = mouse.pressed(event, under, now).0;
            &&& 1 <= count <= 3
            &&& after.clicks(event, soon) == if count == 3 {
                1
            } else {
                count + 1
            }
        }),
{
}

} // verus!
