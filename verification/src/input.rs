//! Keys and the mouse, as the terminal reports them.

use crate::text::{chars, decimal, string, write_number};
use vstd::prelude::*;

verus! {

#[derive(Debug, Clone, Copy, PartialEq, Eq, Structural)]
pub struct KeyModifiers {
    pub shift: bool,
    pub control: bool,
    pub alt: bool,
    /// The key called Cmd, Meta, Super or Windows.
    pub meta: bool,
}

impl KeyModifiers {
    pub open spec fn spec_none() -> KeyModifiers {
        KeyModifiers { shift: false, control: false, alt: false, meta: false }
    }

    pub open spec fn spec_is_empty(self) -> bool {
        self == KeyModifiers::spec_none()
    }

    pub open spec fn spec_shift() -> KeyModifiers {
        KeyModifiers { shift: true, ..KeyModifiers::spec_none() }
    }

    pub fn none() -> (r: KeyModifiers)
        ensures
            r == KeyModifiers::spec_none(),
    {
        KeyModifiers { shift: false, control: false, alt: false, meta: false }
    }

    pub fn is_empty(self) -> (r: bool)
        ensures
            r == self.spec_is_empty(),
    {
        !self.shift && !self.control && !self.alt && !self.meta
    }

    /// Whether Shift, and only Shift, is held.
    pub fn is_shift(self) -> (r: bool)
        ensures
            r == (self == KeyModifiers::spec_shift()),
    {
        self.shift && !self.control && !self.alt && !self.meta
    }
}

#[derive(Debug, Clone, Copy, PartialEq, Eq, Structural)]
pub enum KeyCode {
    Backspace,
    Enter,
    Left,
    Right,
    Up,
    Down,
    Home,
    End,
    PageUp,
    PageDown,
    Tab,
    Delete,
    Insert,
    F(u8),
    Char(char),
    Null,
    Esc,
    CapsLock,
    ScrollLock,
    NumLock,
    PrintScreen,
    Pause,
    Menu,
    KeypadBegin,
}

#[derive(Debug, Clone, Copy, PartialEq, Eq, Structural)]
pub struct KeyEvent {
    pub code: KeyCode,
    pub modifiers: KeyModifiers,
}

impl KeyEvent {
    pub open spec fn bare(code: KeyCode) -> KeyEvent {
        KeyEvent { code, modifiers: KeyModifiers::spec_none() }
    }
}

/// What a key is called in the configuration, its modifiers left out.
pub open spec fn code_words(code: KeyCode) -> Seq<char> {
    match code {
        KeyCode::Backspace => "backspace"@,
        KeyCode::Enter => "ret"@,
        KeyCode::Left => "left"@,
        KeyCode::Right => "right"@,
        KeyCode::Up => "up"@,
        KeyCode::Down => "down"@,
        KeyCode::Home => "home"@,
        KeyCode::End => "end"@,
        KeyCode::PageUp => "pageup"@,
        KeyCode::PageDown => "pagedown"@,
        KeyCode::Tab => "tab"@,
        KeyCode::Delete => "del"@,
        KeyCode::Insert => "ins"@,
        KeyCode::F(n) => "F"@ + decimal(n as nat),
        KeyCode::Char(c) => if c == ' ' {
            "space"@
        } else if c == '-' {
            "minus"@
        } else if c == '<' {
            "lt"@
        } else if c == '>' {
            "gt"@
        } else {
            seq![c]
        },
        KeyCode::Null => "null"@,
        KeyCode::Esc => "esc"@,
        KeyCode::CapsLock => "capslock"@,
        KeyCode::ScrollLock => "scrolllock"@,
        KeyCode::NumLock => "numlock"@,
        KeyCode::PrintScreen => "printscreen"@,
        KeyCode::Pause => "pause"@,
        KeyCode::Menu => "menu"@,
        KeyCode::KeypadBegin => "keypadbegin"@,
    }
}

/// What a key is called in the configuration: `C-s`, `A-ret`, `F3`.
pub open spec fn key_words(key: KeyEvent) -> Seq<char> {
    (if key.modifiers.meta {
        "Meta-"@
    } else {
        Seq::empty()
    }) + (if key.modifiers.shift {
        "S-"@
    } else {
        Seq::empty()
    }) + (if key.modifiers.alt {
        "A-"@
    } else {
        Seq::empty()
    }) + (if key.modifiers.control {
        "C-"@
    } else {
        Seq::empty()
    }) + code_words(key.code)
}

pub fn code_name(code: KeyCode) -> (r: String)
    ensures
        r@ == code_words(code),
{
    let name: &str = match code {
        KeyCode::Backspace => "backspace",
        KeyCode::Enter => "ret",
        KeyCode::Left => "left",
        KeyCode::Right => "right",
        KeyCode::Up => "up",
        KeyCode::Down => "down",
        KeyCode::Home => "home",
        KeyCode::End => "end",
        KeyCode::PageUp => "pageup",
        KeyCode::PageDown => "pagedown",
        KeyCode::Tab => "tab",
        KeyCode::Delete => "del",
        KeyCode::Insert => "ins",
        KeyCode::F(n) => {
            let mut words: Vec<char> = chars("F");
            write_number(&mut words, n as u64);
            return string(words.as_slice());
        },
        KeyCode::Char(c) => if c == ' ' {
            "space"
        } else if c == '-' {
            "minus"
        } else if c == '<' {
            "lt"
        } else if c == '>' {
            "gt"
        } else {
            let mut word: Vec<char> = Vec::new();
            word.push(c);
            proof {
                assert(word@ =~= seq![c]);
            }
            return string(word.as_slice());
        },
        KeyCode::Null => "null",
        KeyCode::Esc => "esc",
        KeyCode::CapsLock => "capslock",
        KeyCode::ScrollLock => "scrolllock",
        KeyCode::NumLock => "numlock",
        KeyCode::PrintScreen => "printscreen",
        KeyCode::Pause => "pause",
        KeyCode::Menu => "menu",
        KeyCode::KeypadBegin => "keypadbegin",
    };
    name.to_string()
}

pub fn key_name(key: KeyEvent) -> (r: String)
    ensures
        r@ == key_words(key),
{
    let mut words: Vec<char> = Vec::new();
    if key.modifiers.meta {
        crate::text::append_str(&mut words, "Meta-");
    }
    if key.modifiers.shift {
        crate::text::append_str(&mut words, "S-");
    }
    if key.modifiers.alt {
        crate::text::append_str(&mut words, "A-");
    }
    if key.modifiers.control {
        crate::text::append_str(&mut words, "C-");
    }
    let code: String = code_name(key.code);
    crate::text::append_str(&mut words, code.as_str());
    proof {
        assert(words@ =~= key_words(key));
    }
    string(words.as_slice())
}

#[derive(Debug, Clone, Copy, PartialEq, Eq, Structural)]
pub enum MouseButton {
    Left,
    Right,
    Middle,
}

#[derive(Debug, Clone, Copy, PartialEq, Eq, Structural)]
pub enum MouseEventKind {
    Down(MouseButton),
    Up(MouseButton),
    Drag(MouseButton),
    Moved,
    ScrollDown,
    ScrollUp,
    ScrollLeft,
    ScrollRight,
}

#[derive(Debug, Clone, Copy, PartialEq, Eq, Structural)]
pub struct MouseEvent {
    pub kind: MouseEventKind,
    pub column: u16,
    pub row: u16,
    pub modifiers: KeyModifiers,
}

/// A key that is held is written in front of the one pressed with it: `C-` for Ctrl, `A-` for
/// Alt, `S-` for Shift and `Meta-` for Cmd; without one the key is written alone.
pub proof fn what_is_held_is_written_in_front(key: KeyEvent)
    requires
        key.modifiers == KeyModifiers::spec_none(),
    ensures
        key_words(key) == code_words(key.code),
        key_words(
            KeyEvent {
                modifiers: KeyModifiers { control: true, ..KeyModifiers::spec_none() },
                ..key
            },
        ) == "C-"@ + code_words(key.code),
        key_words(
            KeyEvent {
                modifiers: KeyModifiers { alt: true, ..KeyModifiers::spec_none() },
                ..key
            },
        ) == "A-"@ + code_words(key.code),
        key_words(
            KeyEvent {
                modifiers: KeyModifiers { shift: true, ..KeyModifiers::spec_none() },
                ..key
            },
        ) == "S-"@ + code_words(key.code),
        key_words(
            KeyEvent {
                modifiers: KeyModifiers { meta: true, ..KeyModifiers::spec_none() },
                ..key
            },
        ) == "Meta-"@ + code_words(key.code),
{
    let code = code_words(key.code);
    let none = Seq::<char>::empty();
    assert(none + none + none + none + code =~= code);
    assert(none + none + none + "C-"@ + code =~= "C-"@ + code);
    assert(none + none + "A-"@ + none + code =~= "A-"@ + code);
    assert(none + "S-"@ + none + none + code =~= "S-"@ + code);
    assert("Meta-"@ + none + none + none + code =~= "Meta-"@ + code);
}

} // verus!
