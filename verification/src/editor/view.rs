//! The editor's view as a whole: what it remembers from one event, and one frame, to the next.

use crate::editor::bufferline::{drawn_tab, first_drawn, front, list_tabs, shown_from, tabs_of,
    Bufferline, BufferlineHit, OpenFile, TabToDraw, MARK_WIDTH};
use crate::editor::keys::{ClearStep, CompleteAction, CursorKind, InsertEvent, OnKeyCallbackKind};
use crate::editor::mouse::{Mouse, MouseAnswer, Under};
use crate::git::LastBlame;
use crate::graphics::{less, min, Rect};
use crate::input::{KeyEvent, MouseEvent};
use vstd::prelude::*;

verus! {

#[derive(Debug)]
pub struct EditorView {
    /// What waits for the next key, and when it is given it.
    pub on_next_key: Option<OnKeyCallbackKind>,
    /// Keys shown as pending that no key map has pending.
    pub pseudo_pending: Vec<KeyEvent>,
    /// What was inserted last, for it to be done again.
    pub last_insert: Vec<InsertEvent>,
    /// A menu of completions is open.
    pub completion: bool,
    /// Whether the terminal window is in focus.
    pub terminal_focused: bool,
    /// The line blamed last, for a second blame of it to open its commit.
    pub last_blame: Option<LastBlame>,
    pub bufferline: Bufferline,
    pub mouse: Mouse,
}

impl EditorView {
    pub fn new() -> (r: EditorView)
        ensures
            r.on_next_key is None,
            r.pseudo_pending@.len() == 0,
            r.last_insert@.len() == 0,
            !r.completion,
            r.terminal_focused,
            r.last_blame is None,
            r.bufferline.tabs@.len() == 0,
            r.bufferline.area == (Rect { x: 0, y: 0, width: 0, height: 0 }),
            r.bufferline.first == 0,
            r.bufferline.back is None,
            r.bufferline.forward is None,
            r.mouse == (Mouse {
                dragged_separator: None,
                last_click: None,
                drag_unit: None,
                selecting: false,
                pointer: None,
                pointer_shape: None,
                moved_at: 0,
                hover_armed: false,
                hover_shown: None,
            }),
    {
        EditorView {
            on_next_key: None,
            pseudo_pending: Vec::new(),
            last_insert: Vec::new(),
            completion: false,
            terminal_focused: true,
            last_blame: None,
            bufferline: Bufferline::new(),
            mouse: Mouse::new(),
        }
    }

    /// Draws the tabs of the open files along a strip: answers the tabs there are, of which
    /// those remembered as drawn have their places.
    pub fn render_bufferline(
        &mut self,
        files: &Vec<OpenFile>,
        current: usize,
        full_preview: bool,
        viewport: Rect,
        height: u16,
    ) -> (r: Vec<TabToDraw>)
        requires
            viewport.fits(),
        ensures
            r.deep_view() == tabs_of(files@, current, full_preview, files@.len()),
            final(self).bufferline.first + final(self).bufferline.tabs@.len() <= r@.len(),
            ({
                let all = r.deep_view();
                let ahead = front(all, 0);
                let first = first_drawn(
                    all,
                    min(old(self).bufferline.first as int, ahead),
                    ahead,
                    viewport.width as int,
                );
                let shown = shown_from(all, first, viewport.width as int);
                let strip = final(self).bufferline;
                &&& strip.area == viewport
                &&& strip.first == first
                &&& strip.tabs@ == Seq::new(
                    shown as nat,
                    |i: int| drawn_tab(all, first, first + i, viewport, height),
                )
                &&& strip.back == if first > 0 {
                    Some(Rect { x: viewport.x, y: viewport.y, width: MARK_WIDTH, height })
                } else {
                    None
                }
                &&& strip.forward == if first + shown < all.len() {
                    Some(
                        Rect {
                            x: less(viewport.spec_right() as int, MARK_WIDTH as int) as u16,
                            y: viewport.y,
                            width: MARK_WIDTH,
                            height,
                        },
                    )
                } else {
                    None
                }
            }),
            *final(self) == (EditorView { bufferline: final(self).bufferline, ..*old(self) }),
    {
        let tabs: Vec<TabToDraw> = list_tabs(files, current, full_preview);
        self.bufferline.lay_out(&tabs, viewport, height);
        tabs
    }

    /// Forgets the last frame's tabs, so nothing of them can be clicked.
    pub fn clear_bufferline(&mut self)
        ensures
            final(self).bufferline.tabs@.len() == 0,
            final(self).bufferline.area == (Rect { x: 0, y: 0, width: 0, height: 0 }),
            final(self).bufferline.back is None,
            final(self).bufferline.forward is None,
            final(self).bufferline.first == old(self).bufferline.first,
            *final(self) == (EditorView { bufferline: final(self).bufferline, ..*old(self) }),
    {
        self.bufferline.clear();
    }

    /// Where a click on the tabs landed.
    pub fn bufferline_hit(&self, row: u16, column: u16) -> (r: Option<BufferlineHit>)
        ensures
            r == self.bufferline.hit(row, column),
    {
        self.bufferline.bufferline_hit(row, column)
    }

    /// Reads the mouse at a time in milliseconds.
    pub fn handle_mouse_event(&mut self, event: MouseEvent, under: &Under, now: u64) -> (r:
        MouseAnswer)
        ensures
            (final(self).mouse, final(self).bufferline.first, r) == old(self).mouse.answered(
                old(self).bufferline,
                event,
                *under,
                now,
            ),
            final(self).bufferline == (Bufferline {
                first: final(self).bufferline.first,
                ..old(self).bufferline
            }),
            *final(self) == (EditorView {
                mouse: final(self).mouse,
                bufferline: final(self).bufferline,
                ..*old(self)
            }),
    {
        self.mouse.handle_mouse_event(&mut self.bufferline, event, under, now)
    }

    /// Opens a menu of completions; one with no completion is not opened. Answers whether it
    /// is.
    pub fn set_completion(&mut self, completions: usize) -> (r: bool)
        ensures
            r == (completions > 0),
            final(self).completion == (old(self).completion || r),
            final(self).last_insert@ == if r {
                old(self).last_insert@.push(InsertEvent::TriggerCompletion)
            } else {
                old(self).last_insert@
            },
            *final(self) == (EditorView {
                completion: final(self).completion,
                last_insert: final(self).last_insert,
                ..*old(self)
            }),
    {
        if completions == 0 {
            return false;
        }
        self.last_insert.push(InsertEvent::TriggerCompletion);
        self.completion = true;
        true
    }

    /// Closes the menu of completions, recording what was applied.
    pub fn clear_completion(&mut self, last: Option<CompleteAction>) -> (r: ClearStep)
        ensures
            !final(self).completion,
            match last {
                Some(CompleteAction::Applied { trigger_offset, changes, placeholder }) => {
                    &&& r == ClearStep::Recorded { placeholder }
                    &&& final(self).last_insert@ == old(self).last_insert@.push(
                        InsertEvent::CompletionApply { trigger_offset, changes },
                    )
                },
                Some(CompleteAction::Selected { savepoint }) => r == ClearStep::Restore(savepoint)
                    && final(self).last_insert == old(self).last_insert,
                _ => r == ClearStep::Nothing && final(self).last_insert == old(self).last_insert,
            },
            *final(self) == (EditorView {
                completion: false,
                last_insert: final(self).last_insert,
                ..*old(self)
            }),
    {
        self.completion = false;
        match last {
            Some(CompleteAction::Applied { trigger_offset, changes, placeholder }) => {
                self.last_insert.push(InsertEvent::CompletionApply { trigger_offset, changes });
                ClearStep::Recorded { placeholder }
            },
            Some(CompleteAction::Selected { savepoint }) => ClearStep::Restore(savepoint),
            _ => ClearStep::Nothing,
        }
    }

    /// Gives what waits for the next key the key, where this is when it is given it: it waits
    /// no more then. Answers whether it was.
    pub fn on_next_key(&mut self, kind: OnKeyCallbackKind) -> (r: bool)
        ensures
            r == (old(self).on_next_key == Some(kind)),
            *final(self) == (EditorView {
                on_next_key: if r {
                    None
                } else {
                    old(self).on_next_key
                },
                ..*old(self)
            }),
    {
        let given: bool = match self.on_next_key {
            Some(own) => own == kind,
            None => false,
        };
        if given {
            self.on_next_key = None;
        }
        given
    }

    /// The keys that are pending before a key is looked up are shown with it, should what it
    /// runs wait for more.
    pub fn looks_up(&mut self, pending: &Vec<KeyEvent>)
        ensures
            final(self).pseudo_pending@ == old(self).pseudo_pending@ + pending@,
            *final(self) == (EditorView {
                pseudo_pending: final(self).pseudo_pending,
                ..*old(self)
            }),
    {
        let ghost before = self.pseudo_pending@;
        let mut n: usize = 0;
        proof {
            assert(before + pending@.take(0) =~= before);
        }
        while n < pending.len()
            invariant
                n <= pending@.len(),
                self.pseudo_pending@ == before + pending@.take(n as int),
                before == old(self).pseudo_pending@,
                *self == (EditorView { pseudo_pending: self.pseudo_pending, ..*old(self) }),
            decreases pending@.len() - n,
        {
            self.pseudo_pending.push(pending[n]);
            n = n + 1;
            proof {
                assert(self.pseudo_pending@ =~= before + pending@.take(n as int));
            }
        }
        proof {
            assert(pending@.take(n as int) =~= pending@);
        }
    }

    /// A key was read, and something waits for the next one or nothing does. The key is shown
    /// as pending where what waits takes keys before they are looked up, and else none is.
    pub fn key_read(&mut self, key: KeyEvent, waits: Option<OnKeyCallbackKind>)
        ensures
            final(self).on_next_key == waits,
            final(self).pseudo_pending@ == if waits == Some(OnKeyCallbackKind::PseudoPending) {
                old(self).pseudo_pending@.push(key)
            } else {
                Seq::empty()
            },
            *final(self) == (EditorView {
                on_next_key: waits,
                pseudo_pending: final(self).pseudo_pending,
                ..*old(self)
            }),
    {
        self.on_next_key = waits;
        match waits {
            Some(OnKeyCallbackKind::PseudoPending) => {
                self.pseudo_pending.push(key);
            },
            _ => {
                self.pseudo_pending = Vec::new();
            },
        }
    }

    /// Input that is no key: what waits for a key, and what keys are shown as pending, is
    /// dismissed. Answers whether something waited, which is given a key that does nothing.
    pub fn handle_non_key_input(&mut self) -> (r: bool)
        ensures
            r == (old(self).on_next_key is Some),
            final(self).pseudo_pending@.len() == 0,
            *final(self) == (EditorView {
                on_next_key: None,
                pseudo_pending: final(self).pseudo_pending,
                ..*old(self)
            }),
    {
        let waited: bool = self.on_next_key.is_some();
        self.on_next_key = None;
        self.pseudo_pending = Vec::new();
        waited
    }

    /// A command that entered insert mode: what was inserted before is forgotten.
    pub fn entered_insert(&mut self)
        ensures
            final(self).last_insert@.len() == 0,
            *final(self) == (EditorView { last_insert: final(self).last_insert, ..*old(self) }),
    {
        self.last_insert = Vec::new();
    }

    /// A key typed while inserting is recorded.
    pub fn inserted(&mut self, key: KeyEvent)
        ensures
            final(self).last_insert@ == old(self).last_insert@.push(InsertEvent::Key(key)),
            *final(self) == (EditorView { last_insert: final(self).last_insert, ..*old(self) }),
    {
        self.last_insert.push(InsertEvent::Key(key));
    }

    /// The terminal window is in focus, or not any more. Answers whether every file is to be
    /// saved, which leaving the terminal does where that is on.
    pub fn terminal_focus(&mut self, focused: bool, save: bool) -> (r: bool)
        ensures
            r == (!focused && save),
            *final(self) == (EditorView { terminal_focused: focused, ..*old(self) }),
    {
        self.terminal_focused = focused;
        !focused && save
    }

    /// The cursor the terminal draws, for the one of the editor; none where nothing on screen
    /// is being edited.
    pub fn cursor(
        &self,
        kind: CursorKind,
        blink: bool,
        sidebar_focused: bool,
        full_preview: bool,
        nothing_open: bool,
    ) -> (r: CursorKind)
        ensures
            r == if sidebar_focused || full_preview || nothing_open {
                CursorKind::Hidden
            } else {
                match kind {
                    CursorKind::Block => if !self.terminal_focused {
                        CursorKind::Underline
                    } else if blink {
                        CursorKind::Block
                    } else {
                        CursorKind::Hidden
                    },
                    other => other,
                }
            },
    {
        if sidebar_focused || full_preview || nothing_open {
            return CursorKind::Hidden;
        }
        match kind {
            CursorKind::Block => {
                if self.terminal_focused && blink {
                    CursorKind::Block
                } else if self.terminal_focused {
                    CursorKind::Hidden
                } else {
                    // The terminal's own cursor stands for the block.
                    CursorKind::Underline
                }
            },
            other => other,
        }
    }
}

} // verus!
