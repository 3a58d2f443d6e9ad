//! Key and mouse events and the names of keys.

use crate::chars::{joined2, numeral, numeral_of};
use crate::num::read::{ascii_lower, lower_ascii};
use vstd::prelude::*;

verus! {

/// A key.
#[derive(Clone, Copy, Debug, PartialEq, Eq, Structural)]
pub enum KeyCode {
    Char(char),
    Esc,
    Enter,
    Backspace,
    Up,
    Down,
    Left,
    Right,
    PageUp,
    PageDown,
    Home,
    End,
    Tab,
    /// A function key.
    F(u8),
    Other,
}

/// A key pressed, with the modifiers held.
#[derive(Clone, Copy, Debug, PartialEq, Eq, Structural)]
pub struct KeyEvent {
    pub code: KeyCode,
    pub ctrl: bool,
    pub alt: bool,
}

/// What the mouse did.
#[derive(Clone, Copy, Debug, PartialEq, Eq, Structural)]
pub enum MouseEventKind {
    ScrollUp,
    ScrollDown,
    /// The left button went down.
    LeftDown,
    Other,
}

/// What the mouse did, and where.
#[derive(Clone, Copy, Debug, PartialEq, Eq, Structural)]
pub struct MouseEvent {
    pub kind: MouseEventKind,
    pub row: u16,
    pub column: u16,
}

impl KeyEvent {
    /// The character that the key types.
    pub open spec fn character(self) -> Option<char> {
        match self.code {
            KeyCode::Char(c) => if !self.ctrl && !self.alt {
                Some(c)
            } else {
                None
            },
            _ => None,
        }
    }

    /// The name of the key; empty for one without.
    pub open spec fn name(self) -> Seq<char> {
        match self.code {
            KeyCode::Char(c) => if self.ctrl {
                "ctrl+"@ + seq![ascii_lower(c)]
            } else {
                seq![c]
            },
            KeyCode::Esc => "esc"@,
            KeyCode::Enter => "enter"@,
            KeyCode::Backspace => "backspace"@,
            KeyCode::Up => "up"@,
            KeyCode::Down => "down"@,
            KeyCode::Left => "left"@,
            KeyCode::Right => "right"@,
            KeyCode::PageUp => "pgup"@,
            KeyCode::PageDown => "pgdown"@,
            KeyCode::Home => "home"@,
            KeyCode::End => "end"@,
            KeyCode::Tab => "tab"@,
            KeyCode::F(n) => "f"@ + numeral(n as nat),
            KeyCode::Other => ""@,
        }
    }

    /// The character that the key types.
    pub fn typed(self) -> (r: Option<char>)
        ensures
            r == self.character(),
    {
        match self.code {
            KeyCode::Char(c) => if !self.ctrl && !self.alt {
                Some(c)
            } else {
                None
            },
            _ => None,
        }
    }
}

/// The name of a key; empty for one without.
pub fn key_string(ev: &KeyEvent) -> (r: String)
    ensures
        r@ == ev.name(),
{
    match ev.code {
        KeyCode::Char(c) => {
            if ev.ctrl {
                let mut s = "ctrl+".to_owned();
                s.push(lower_ascii(c));
                proof {
                    assert(s@ =~= "ctrl+"@ + seq![ascii_lower(c)]);
                }
                s
            } else {
                let mut s = String::new();
                s.push(c);
                proof {
                    assert(s@ =~= seq![c]);
                }
                s
            }
        },
        KeyCode::Esc => "esc".to_owned(),
        KeyCode::Enter => "enter".to_owned(),
        KeyCode::Backspace => "backspace".to_owned(),
        KeyCode::Up => "up".to_owned(),
        KeyCode::Down => "down".to_owned(),
        KeyCode::Left => "left".to_owned(),
        KeyCode::Right => "right".to_owned(),
        KeyCode::PageUp => "pgup".to_owned(),
        KeyCode::PageDown => "pgdown".to_owned(),
        KeyCode::Home => "home".to_owned(),
        KeyCode::End => "end".to_owned(),
        KeyCode::Tab => "tab".to_owned(),
        KeyCode::F(n) => joined2("f", numeral_of(n as u64).as_str()),
        KeyCode::Other => "".to_owned(),
    }
}

} // verus!
