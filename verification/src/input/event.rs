//! Parsed terminal input events.

use vstd::prelude::*;

verus! {

/// A parsed terminal input event.
#[derive(Debug, PartialEq)]
pub enum InputEvent {
    /// Keyboard input with semantic classification and raw bytes.
    Key(KeyInput),
    /// Mouse event, from the X10 or SGR protocol.
    Mouse(MouseEvent),
    /// Bracketed paste content.
    Paste(String),
}

/// Keyboard input: the raw bytes exactly as received — for lossless
/// forwarding — and their semantic classification.
#[derive(Debug, PartialEq)]
pub struct KeyInput {
    /// Raw bytes exactly as received from the terminal.
    pub raw: Vec<u8>,
    /// Semantic classification of the key press.
    pub kind: KeyKind,
}

/// Semantic classification of a keyboard input.
#[derive(Debug, PartialEq)]
pub enum KeyKind {
    /// Printable character, ASCII or multi-byte UTF-8.
    Char(char),
    /// Control-letter; stores the lower-case letter.
    Control(char),
    /// Bare escape, after a timeout with no follow-up byte.
    Escape,
    /// Carriage return.
    Enter,
    /// Horizontal tab.
    Tab,
    /// Delete, `0x7f`.
    Backspace,
    /// Arrow key.
    Arrow(Direction),
    /// Navigation key.
    Nav(NavKey),
    /// Function key, numbered from one.
    Function(u8),
    /// Alt (escape prefix) combined with another key.
    Alt(Box<KeyKind>),
    /// Unrecognized sequence; the raw bytes are preserved.
    Unknown,
}

/// Arrow key direction.
#[derive(Debug, Clone, Copy, PartialEq, Eq, Structural)]
pub enum Direction {
    Up,
    Down,
    Right,
    Left,
}

/// Navigation key.
#[derive(Debug, Clone, Copy, PartialEq, Eq, Structural)]
pub enum NavKey {
    Home,
    End,
    Insert,
    Delete,
    PageUp,
    PageDown,
}

/// Mouse button.
#[derive(Debug, Clone, Copy, PartialEq, Eq, Structural)]
pub enum MouseButton {
    Left,
    Middle,
    Right,
}

/// Mouse event parsed from the X10 or SGR protocol.
#[derive(Debug, Clone, Copy, PartialEq, Eq, Structural)]
pub enum MouseEvent {
    Down { button: MouseButton, col: u16, row: u16 },
    Up { col: u16, row: u16 },
    Drag { button: MouseButton, col: u16, row: u16 },
    /// Motion without any button pressed.
    Move { col: u16, row: u16 },
    ScrollUp { col: u16, row: u16 },
    ScrollDown { col: u16, row: u16 },
}

/// The X10 button code of a mouse event, before the +32 offset.
pub open spec fn x10_code(e: MouseEvent) -> int {
    match e {
        MouseEvent::Down { button, .. } => match button {
            MouseButton::Left => 0,
            MouseButton::Middle => 1,
            MouseButton::Right => 2,
        },
        MouseEvent::Up { .. } => 3,
        MouseEvent::Drag { button, .. } => match button {
            MouseButton::Left => 32,
            MouseButton::Middle => 33,
            MouseButton::Right => 34,
        },
        MouseEvent::Move { .. } => 35,
        MouseEvent::ScrollUp { .. } => 64,
        MouseEvent::ScrollDown { .. } => 65,
    }
}

/// The column and row of a mouse event.
pub open spec fn position_spec(e: MouseEvent) -> (u16, u16) {
    match e {
        MouseEvent::Down { col, row, .. } => (col, row),
        MouseEvent::Up { col, row } => (col, row),
        MouseEvent::Drag { col, row, .. } => (col, row),
        MouseEvent::Move { col, row } => (col, row),
        MouseEvent::ScrollUp { col, row } => (col, row),
        MouseEvent::ScrollDown { col, row } => (col, row),
    }
}

impl MouseEvent {
    /// Encode as X10 mouse protocol bytes: escape, `[`, `M`, then button,
    /// column and row, each offset and truncated to a byte as the wire
    /// format demands.
    pub fn to_x10_bytes(&self) -> (r: [u8; 6])
        ensures
            r@ == seq![
                27u8,
                91u8,
                77u8,
                ((x10_code(*self) + 32) % 256) as u8,
                ((position_spec(*self).0 + 33) % 256) as u8,
                ((position_spec(*self).1 + 33) % 256) as u8,
            ],
    {
        let (button_code, col, row): (u8, u16, u16) = match *self {
            MouseEvent::Down { button, col, row } => {
                let b: u8 = match button {
                    MouseButton::Left => 0,
                    MouseButton::Middle => 1,
                    MouseButton::Right => 2,
                };
                (b, col, row)
            },
            MouseEvent::Up { col, row } => (3, col, row),
            MouseEvent::Drag { button, col, row } => {
                let b: u8 = match button {
                    MouseButton::Left => 32,
                    MouseButton::Middle => 33,
                    MouseButton::Right => 34,
                };
                (b, col, row)
            },
            MouseEvent::Move { col, row } => (35, col, row),
            MouseEvent::ScrollUp { col, row } => (64, col, row),
            MouseEvent::ScrollDown { col, row } => (65, col, row),
        };
        let b3: u8 = button_code + 32;
        let b4: u8 = #[verifier::truncate] ((col as u32 + 33) as u8);
        let b5: u8 = #[verifier::truncate] ((row as u32 + 33) as u8);
        let out: [u8; 6] = [27, 91, 77, b3, b4, b5];
        proof {
            assert(button_code == x10_code(*self));
            assert((col, row) == position_spec(*self));
            assert(b3 == ((x10_code(*self) + 32) % 256) as u8);
            assert(b4 == ((col as u32 + 33) % 0x1_0000_0000) as u8);
            assert((col as u32 + 33) % 0x1_0000_0000 == col + 33);
            assert(b4 == ((position_spec(*self).0 + 33) % 256) as u8) by {
                assert(((col + 33) as u32) as u8 == ((col + 33) % 256) as u8) by (bit_vector);
            }
            assert(b5 == ((row as u32 + 33) % 0x1_0000_0000) as u8);
            assert((row as u32 + 33) % 0x1_0000_0000 == row + 33);
            assert(b5 == ((position_spec(*self).1 + 33) % 256) as u8) by {
                assert(((row + 33) as u32) as u8 == ((row + 33) % 256) as u8) by (bit_vector);
            }
            assert(out@ =~= seq![
                27u8,
                91u8,
                77u8,
                ((x10_code(*self) + 32) % 256) as u8,
                ((position_spec(*self).0 + 33) % 256) as u8,
                ((position_spec(*self).1 + 33) % 256) as u8,
            ]);
        }
        out
    }

    /// True for scroll events.
    pub fn is_scroll(&self) -> (r: bool)
        ensures
            r == (self is ScrollUp || self is ScrollDown),
    {
        matches!(self, MouseEvent::ScrollUp { .. } | MouseEvent::ScrollDown { .. })
    }

    /// Column and row of this event.
    pub fn position(&self) -> (r: (u16, u16))
        ensures
            r == position_spec(*self),
    {
        match *self {
            MouseEvent::Down { col, row, .. } => (col, row),
            MouseEvent::Up { col, row } => (col, row),
            MouseEvent::Drag { col, row, .. } => (col, row),
            MouseEvent::Move { col, row } => (col, row),
            MouseEvent::ScrollUp { col, row } => (col, row),
            MouseEvent::ScrollDown { col, row } => (col, row),
        }
    }
}

} // verus!
