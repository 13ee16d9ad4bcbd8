//! Tests for the terminal input parser.

use anyrelay::input::event::{
    Direction, InputEvent, KeyInput, KeyKind, MouseButton, MouseEvent, NavKey,
};
use anyrelay::input::parser::InputParser;

#[test]
fn option_backspace() {
    let mut p = InputParser::new();
    let events = p.feed(&[0x1b, 0x7f]);
    assert_eq!(events.len(), 1);
    assert_eq!(
        events[0],
        InputEvent::Key(KeyInput {
            raw: vec![0x1b, 0x7f],
            kind: KeyKind::Alt(Box::new(KeyKind::Backspace)),
        })
    );
}

#[test]
fn ctrl_b() {
    let mut p = InputParser::new();
    let events = p.feed(&[0x02]);
    assert_eq!(events.len(), 1);
    assert_eq!(
        events[0],
        InputEvent::Key(KeyInput { raw: vec![0x02], kind: KeyKind::Control('b') })
    );
}

#[test]
fn arrow_up() {
    let mut p = InputParser::new();
    let events = p.feed(&[0x1b, b'[', b'A']);
    assert_eq!(events.len(), 1);
    assert_eq!(
        events[0],
        InputEvent::Key(KeyInput {
            raw: vec![0x1b, b'[', b'A'],
            kind: KeyKind::Arrow(Direction::Up),
        })
    );
}

#[test]
fn arrow_down_with_alt_modifier() {
    let mut p = InputParser::new();
    let events = p.feed(&[0x1b, b'[', b'1', b';', b'3', b'B']);
    assert_eq!(events.len(), 1);
    assert_eq!(
        events[0],
        InputEvent::Key(KeyInput {
            raw: vec![0x1b, b'[', b'1', b';', b'3', b'B'],
            kind: KeyKind::Alt(Box::new(KeyKind::Arrow(Direction::Down))),
        })
    );
}

#[test]
fn bare_esc_with_flush() {
    let mut p = InputParser::new();
    let events = p.feed(&[0x1b]);
    assert!(events.is_empty());
    assert!(p.has_pending());

    let events = p.flush();
    assert_eq!(events.len(), 1);
    assert_eq!(
        events[0],
        InputEvent::Key(KeyInput { raw: vec![0x1b], kind: KeyKind::Escape })
    );
}

#[test]
fn printable_chars() {
    let mut p = InputParser::new();
    let events = p.feed(b"abc");
    assert_eq!(events.len(), 3);
    assert_eq!(
        events[0],
        InputEvent::Key(KeyInput { raw: vec![b'a'], kind: KeyKind::Char('a') })
    );
}

#[test]
fn enter_tab_backspace() {
    let mut p = InputParser::new();
    let events = p.feed(&[0x0d, 0x09, 0x7f]);
    assert_eq!(events.len(), 3);
    assert_eq!(events[0], InputEvent::Key(KeyInput { raw: vec![0x0d], kind: KeyKind::Enter }));
    assert_eq!(events[1], InputEvent::Key(KeyInput { raw: vec![0x09], kind: KeyKind::Tab }));
    assert_eq!(
        events[2],
        InputEvent::Key(KeyInput { raw: vec![0x7f], kind: KeyKind::Backspace })
    );
}

#[test]
fn alt_char() {
    let mut p = InputParser::new();
    let events = p.feed(&[0x1b, b'd']);
    assert_eq!(events.len(), 1);
    assert_eq!(
        events[0],
        InputEvent::Key(KeyInput {
            raw: vec![0x1b, b'd'],
            kind: KeyKind::Alt(Box::new(KeyKind::Char('d'))),
        })
    );
}

#[test]
fn bracketed_paste() {
    let mut p = InputParser::new();
    let mut input = Vec::new();
    input.extend_from_slice(b"\x1b[200~");
    input.extend_from_slice(b"hello world");
    input.extend_from_slice(b"\x1b[201~");
    let events = p.feed(&input);
    assert_eq!(events.len(), 1);
    assert_eq!(events[0], InputEvent::Paste("hello world".to_string()));
}

#[test]
fn x10_mouse_down_left() {
    let mut p = InputParser::new();
    let events = p.feed(&[0x1b, b'[', b'M', 32, 34, 35]);
    assert_eq!(events.len(), 1);
    assert_eq!(
        events[0],
        InputEvent::Mouse(MouseEvent::Down { button: MouseButton::Left, col: 1, row: 2 })
    );
}

#[test]
fn sgr_mouse_down() {
    let mut p = InputParser::new();
    let events = p.feed(b"\x1b[<0;10;20M");
    assert_eq!(events.len(), 1);
    assert_eq!(
        events[0],
        InputEvent::Mouse(MouseEvent::Down { button: MouseButton::Left, col: 9, row: 19 })
    );
}

#[test]
fn sgr_mouse_release() {
    let mut p = InputParser::new();
    let events = p.feed(b"\x1b[<0;5;10m");
    assert_eq!(events.len(), 1);
    assert_eq!(events[0], InputEvent::Mouse(MouseEvent::Up { col: 4, row: 9 }));
}

#[test]
fn page_up_down() {
    let mut p = InputParser::new();
    let events = p.feed(b"\x1b[5~\x1b[6~");
    assert_eq!(events.len(), 2);
    assert_eq!(
        events[0],
        InputEvent::Key(KeyInput {
            raw: vec![0x1b, b'[', b'5', b'~'],
            kind: KeyKind::Nav(NavKey::PageUp),
        })
    );
    assert_eq!(
        events[1],
        InputEvent::Key(KeyInput {
            raw: vec![0x1b, b'[', b'6', b'~'],
            kind: KeyKind::Nav(NavKey::PageDown),
        })
    );
}

#[test]
fn delete_insert() {
    let mut p = InputParser::new();
    let events = p.feed(b"\x1b[3~\x1b[2~");
    assert_eq!(events.len(), 2);
    assert_eq!(
        events[0],
        InputEvent::Key(KeyInput {
            raw: vec![0x1b, b'[', b'3', b'~'],
            kind: KeyKind::Nav(NavKey::Delete),
        })
    );
    assert_eq!(
        events[1],
        InputEvent::Key(KeyInput {
            raw: vec![0x1b, b'[', b'2', b'~'],
            kind: KeyKind::Nav(NavKey::Insert),
        })
    );
}

#[test]
fn home_end() {
    let mut p = InputParser::new();
    let events = p.feed(b"\x1b[H\x1b[F");
    assert_eq!(events.len(), 2);
    assert_eq!(
        events[0],
        InputEvent::Key(KeyInput {
            raw: vec![0x1b, b'[', b'H'],
            kind: KeyKind::Nav(NavKey::Home),
        })
    );
    assert_eq!(
        events[1],
        InputEvent::Key(KeyInput { raw: vec![0x1b, b'[', b'F'], kind: KeyKind::Nav(NavKey::End) })
    );
}

#[test]
fn ss3_function_keys() {
    let mut p = InputParser::new();
    let events = p.feed(b"\x1bOP\x1bOQ");
    assert_eq!(events.len(), 2);
    assert_eq!(
        events[0],
        InputEvent::Key(KeyInput { raw: vec![0x1b, b'O', b'P'], kind: KeyKind::Function(1) })
    );
    assert_eq!(
        events[1],
        InputEvent::Key(KeyInput { raw: vec![0x1b, b'O', b'Q'], kind: KeyKind::Function(2) })
    );
}

#[test]
fn partial_escape_across_feeds() {
    let mut p = InputParser::new();
    let events = p.feed(&[0x1b]);
    assert!(events.is_empty());
    assert!(p.has_pending());

    let events = p.feed(&[b'[', b'A']);
    assert_eq!(events.len(), 1);
    assert_eq!(
        events[0],
        InputEvent::Key(KeyInput {
            raw: vec![0x1b, b'[', b'A'],
            kind: KeyKind::Arrow(Direction::Up),
        })
    );
}

#[test]
fn scroll_mouse_x10() {
    let mut p = InputParser::new();
    let events = p.feed(&[0x1b, b'[', b'M', 96, 34, 34]);
    assert_eq!(events.len(), 1);
    assert_eq!(events[0], InputEvent::Mouse(MouseEvent::ScrollUp { col: 1, row: 1 }));
}

#[test]
fn ctrl_keys() {
    let mut p = InputParser::new();
    let events = p.feed(&[0x01, 0x08, 0x1a]);
    assert_eq!(events.len(), 3);
    assert_eq!(
        events[0],
        InputEvent::Key(KeyInput { raw: vec![0x01], kind: KeyKind::Control('a') })
    );
    assert_eq!(
        events[1],
        InputEvent::Key(KeyInput { raw: vec![0x08], kind: KeyKind::Control('h') })
    );
    assert_eq!(
        events[2],
        InputEvent::Key(KeyInput { raw: vec![0x1a], kind: KeyKind::Control('z') })
    );
}

#[test]
fn double_esc() {
    let mut p = InputParser::new();
    let events = p.feed(&[0x1b, 0x1b]);
    assert_eq!(events.len(), 1);
    assert_eq!(events[0], InputEvent::Key(KeyInput { raw: vec![0x1b], kind: KeyKind::Escape }));
    assert!(p.has_pending());

    let events = p.flush();
    assert_eq!(events.len(), 1);
    assert_eq!(events[0], InputEvent::Key(KeyInput { raw: vec![0x1b], kind: KeyKind::Escape }));
}

#[test]
fn f5_function_key() {
    let mut p = InputParser::new();
    let events = p.feed(b"\x1b[15~");
    assert_eq!(events.len(), 1);
    assert_eq!(
        events[0],
        InputEvent::Key(KeyInput { raw: b"\x1b[15~".to_vec(), kind: KeyKind::Function(5) })
    );
}

#[test]
fn utf8_multibyte() {
    let mut p = InputParser::new();
    let events = p.feed(&[0xD0, 0x91]);
    assert_eq!(events.len(), 1);
    assert_eq!(
        events[0],
        InputEvent::Key(KeyInput { raw: vec![0xD0, 0x91], kind: KeyKind::Char('Б') })
    );
}

#[test]
fn utf8_emoji() {
    let mut p = InputParser::new();
    let events = p.feed(&[0xF0, 0x9F, 0x98, 0x80]);
    assert_eq!(events.len(), 1);
    assert_eq!(
        events[0],
        InputEvent::Key(KeyInput {
            raw: vec![0xF0, 0x9F, 0x98, 0x80],
            kind: KeyKind::Char('😀'),
        })
    );
}

#[test]
fn mouse_to_x10_bytes_roundtrip() {
    let event = MouseEvent::Down { button: MouseButton::Left, col: 5, row: 10 };
    let bytes = event.to_x10_bytes();
    assert_eq!(bytes[0], 0x1b);
    assert_eq!(bytes[1], b'[');
    assert_eq!(bytes[2], b'M');
    assert_eq!(bytes[3], 32);
    assert_eq!(bytes[4], 38);
    assert_eq!(bytes[5], 43);
}
