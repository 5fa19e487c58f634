//! Keys, and the bindings of the file tree.
use vstd::prelude::*;

verus! {

/// A key of the keyboard. Keys that the file tree gives no meaning of its own
/// are told apart by a number.
#[derive(Debug, Clone, Copy, PartialEq, Eq, Structural)]
pub enum KeyCode {
    Char(char),
    Enter,
    Esc,
    Backspace,
    Up,
    Down,
    Left,
    Right,
    Other(u32),
}

/// The modifiers that are held with a key.
#[derive(Debug, Clone, Copy, PartialEq, Eq, Structural)]
pub struct KeyModifiers {
    pub shift: bool,
    pub control: bool,
    pub alt: bool,
    pub logo: bool,
}

/// A key with its modifiers.
#[derive(Debug, Clone, Copy, PartialEq, Eq, Structural)]
pub struct KeyEvent {
    pub code: KeyCode,
    pub modifiers: KeyModifiers,
}

/// What a component is told of.
#[derive(Debug, Clone, Copy, PartialEq, Eq, Structural)]
pub enum Event {
    Key(KeyEvent),
    /// Anything but a key: a resize, a click, pasted text.
    Other,
}

/// Whether the tree closes after a file was opened from it.
#[derive(Debug, Clone, Copy, PartialEq, Eq, Structural)]
pub enum FileTreeOpenBehavior {
    /// The tree closes.
    Auto,
    /// The tree stays open.
    Manual,
}

/// The configured bindings of the file tree.
#[derive(Debug, Clone, Copy, PartialEq, Eq, Structural)]
pub struct FileTreeKeys {
    pub quit: KeyEvent,
    pub move_down: KeyEvent,
    pub move_up: KeyEvent,
    pub open: KeyEvent,
    pub expand: KeyEvent,
    pub collapse: KeyEvent,
    pub parent: KeyEvent,
    pub select: KeyEvent,
    pub select_extend: KeyEvent,
    pub delete: KeyEvent,
    pub create_file: KeyEvent,
    pub create_dir: KeyEvent,
    pub refresh: KeyEvent,
    pub filter: KeyEvent,
    pub goto_top: KeyEvent,
    pub goto_bottom: KeyEvent,
}

/// No modifier at all.
pub open spec fn no_modifiers() -> KeyModifiers {
    KeyModifiers { shift: false, control: false, alt: false, logo: false }
}

/// Control alone.
pub open spec fn only_control() -> KeyModifiers {
    KeyModifiers { shift: false, control: true, alt: false, logo: false }
}

/// A key as bindings name it: the case of a character already says whether
/// shift is held.
pub open spec fn canonical(key: KeyEvent) -> KeyEvent {
    if key.code is Char {
        KeyEvent { code: key.code, modifiers: KeyModifiers { shift: false, ..key.modifiers } }
    } else {
        key
    }
}

impl KeyEvent {
    /// The key as bindings name it.
    pub fn canonical(&self) -> (r: KeyEvent)
        ensures
            r == canonical(*self),
    {
        match self.code {
            KeyCode::Char(_) => {
                let mut modifiers = self.modifiers;
                modifiers.shift = false;
                KeyEvent { code: self.code, modifiers }
            },
            _ => *self,
        }
    }

    /// The key alone, without modifiers.
    pub fn plain(code: KeyCode) -> (r: KeyEvent)
        ensures
            r == (KeyEvent { code, modifiers: no_modifiers() }),
    {
        KeyEvent {
            code,
            modifiers: KeyModifiers { shift: false, control: false, alt: false, logo: false },
        }
    }
}

impl KeyModifiers {
    /// Whether no modifier is held.
    pub fn is_none(&self) -> (r: bool)
        ensures
            r == (*self == no_modifiers()),
    {
        !self.shift && !self.control && !self.alt && !self.logo
    }

    /// Whether control is held, and nothing else.
    pub fn is_control(&self) -> (r: bool)
        ensures
            r == (*self == only_control()),
    {
        !self.shift && self.control && !self.alt && !self.logo
    }
}

} // verus!
