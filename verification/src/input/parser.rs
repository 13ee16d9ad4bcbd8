//! Terminal input parser: a pure byte-fed state machine, no I/O.
//!
//! Feed raw bytes with `feed` and collect parsed events; call `flush`
//! after a quiet period to resolve a pending escape sequence. The machine
//! is modelled byte for byte: `machine_step` says what one byte does to
//! the parser's mode, its collected bytes and its event queue, and `feed`
//! and `flush` are proved against that model.

use crate::input::event::{
    Direction, InputEvent, KeyInput, KeyKind, MouseButton, MouseEvent, NavKey,
};
use std::collections::VecDeque;
use vstd::prelude::*;

verus! {

/// Parser state.
#[derive(Debug, Clone, Copy, PartialEq, Eq, Structural)]
enum State {
    Ground,
    EscReceived,
    CsiEntry,
    CsiParam,
    Ss3Pending,
    MouseX10 { count: u8 },
    SgrMouse,
    PasteBuf,
    /// Collecting UTF-8 continuation bytes; `remaining` are still needed.
    Utf8 { remaining: u8 },
}

/// One digit folded into a saturating decimal accumulator; non-digits are
/// ignored.
pub open spec fn num_step(acc: u16, b: u8) -> u16 {
    if 48 <= b <= 57 {
        let m: int = if acc * 10 <= u16::MAX {
            acc * 10
        } else {
            u16::MAX as int
        };
        if m + (b - 48) <= u16::MAX {
            (m + (b - 48)) as u16
        } else {
            u16::MAX
        }
    } else {
        acc
    }
}

/// A byte run read as a saturating decimal number, non-digits ignored.
pub open spec fn num_of(s: Seq<u8>) -> u16
    decreases s.len(),
{
    if s.len() == 0 {
        0
    } else {
        num_step(num_of(s.drop_last()), s.last())
    }
}

/// Read one parameter run.
fn read_num(part: &[u8]) -> (r: u16)
    ensures
        r == num_of(part@),
{
    let mut acc: u16 = 0;
    let mut i: usize = 0;
    while i < part.len()
        invariant
            i <= part@.len(),
            acc == num_of(part@.take(i as int)),
        decreases part@.len() - i,
    {
        proof {
            assert(part@.take(i + 1).drop_last() =~= part@.take(i as int));
            assert(part@.take(i + 1).last() == part@[i as int]);
        }
        let b = part[i];
        if 48 <= b && b <= 57 {
            let m: u16 = if acc > u16::MAX / 10 {
                u16::MAX
            } else {
                acc * 10
            };
            let d: u16 = (b - 48) as u16;
            acc = if m > u16::MAX - d {
                u16::MAX
            } else {
                m + d
            };
            proof {
                assert(acc == num_step(num_of(part@.take(i as int)), b));
            }
        }
        i = i + 1;
    }
    proof {
        assert(part@.take(part@.len() as int) =~= part@);
    }
    acc
}

/// A parameter region split at semicolons, byte by byte: `cur` holds the
/// segment collected so far, a semicolon closes it, and the last segment
/// closes at the end of the region.
pub open spec fn split_acc(region: Seq<u8>, cur: Seq<u8>) -> Seq<u16>
    decreases region.len(),
{
    if region.len() == 0 {
        seq![num_of(cur)]
    } else if region[0] == 59 {
        seq![num_of(cur)] + split_acc(region.drop_first(), Seq::empty())
    } else {
        split_acc(region.drop_first(), cur.push(region[0]))
    }
}

/// A parameter region split at semicolons, each piece read as a
/// saturating decimal number.
pub open spec fn split_params_spec(region: Seq<u8>) -> Seq<u16> {
    split_acc(region, Seq::empty())
}

/// Split a parameter region at semicolons and read each piece as a
/// saturating decimal number.
fn split_params(region: &[u8]) -> (r: Vec<u16>)
    ensures
        r@ == split_params_spec(region@),
{
    let mut out: Vec<u16> = Vec::new();
    let mut start: usize = 0;
    let mut i: usize = 0;
    proof {
        assert(region@.skip(0) =~= region@);
        assert(region@.subrange(0, 0) =~= Seq::<u8>::empty());
        assert(out@ + split_acc(region@, Seq::empty()) =~= split_params_spec(region@));
    }
    while i < region.len()
        invariant
            start <= i <= region@.len(),
            split_params_spec(region@) == out@ + split_acc(
                region@.skip(i as int),
                region@.subrange(start as int, i as int),
            ),
        decreases region@.len() - i,
    {
        proof {
            assert(region@.skip(i as int)[0] == region@[i as int]);
            assert(region@.skip(i as int).drop_first() =~= region@.skip(i + 1));
        }
        if region[i] == 59 {
            out.push(read_num(&region[start..i]));
            proof {
                assert(region@.subrange(i + 1, i + 1) =~= Seq::<u8>::empty());
                assert(out@ + split_acc(region@.skip(i + 1), Seq::<u8>::empty())
                    =~= split_params_spec(region@));
            }
            start = i + 1;
        } else {
            proof {
                assert(region@.subrange(start as int, i as int).push(region@[i as int])
                    =~= region@.subrange(start as int, i + 1));
            }
        }
        i = i + 1;
    }
    proof {
        assert(region@.skip(region@.len() as int) =~= Seq::<u8>::empty());
    }
    out.push(read_num(&region[start..region.len()]));
    proof {
        assert(out@ =~= split_params_spec(region@));
    }
    out
}

/// The numeric parameters of a collected control sequence: the bytes
/// between the two-byte introducer and the final byte, semicolon
/// separated.
pub open spec fn extract_csi_params_spec(buf: Seq<u8>) -> Seq<u16> {
    let start: int = if buf.len() >= 2 && buf[0] == 0x1b && buf[1] == 91 {
        2
    } else {
        0
    };
    let end: int = if buf.len() > 0 {
        buf.len() - 1
    } else {
        0
    };
    if start >= end {
        Seq::empty()
    } else {
        split_params_spec(buf.subrange(start, end))
    }
}

/// Extract the numeric parameters from a collected control sequence.
fn extract_csi_params(buf: &[u8]) -> (r: Vec<u16>)
    ensures
        r@ == extract_csi_params_spec(buf@),
{
    let start: usize = if buf.len() >= 2 && buf[0] == 0x1b && buf[1] == 91 {
        2
    } else {
        0
    };
    let end: usize = if buf.len() > 0 {
        buf.len() - 1
    } else {
        0
    };
    if start >= end {
        let r: Vec<u16> = Vec::new();
        proof {
            assert(r@ =~= extract_csi_params_spec(buf@));
        }
        return r;
    }
    split_params(&buf[start..end])
}

/// The classification of a control sequence ending in a letter, with the
/// xterm modifier from the second parameter applied.
pub open spec fn classify_csi_final_spec(final_byte: u8, params: Seq<u16>) -> KeyKind {
    let base: KeyKind = if final_byte == 65 {
        KeyKind::Arrow(Direction::Up)
    } else if final_byte == 66 {
        KeyKind::Arrow(Direction::Down)
    } else if final_byte == 67 {
        KeyKind::Arrow(Direction::Right)
    } else if final_byte == 68 {
        KeyKind::Arrow(Direction::Left)
    } else if final_byte == 72 {
        KeyKind::Nav(NavKey::Home)
    } else if final_byte == 70 {
        KeyKind::Nav(NavKey::End)
    } else {
        KeyKind::Unknown
    };
    if base is Unknown {
        base
    } else if params.len() >= 2 {
        wrap_modifier_spec(base, params[1])
    } else {
        base
    }
}

/// Wrap a classification in an Alt layer when the xterm modifier carries
/// the alt bit; shift and control stay encoded in the raw bytes.
pub open spec fn wrap_modifier_spec(base: KeyKind, modifier: u16) -> KeyKind {
    let bits: u16 = if modifier >= 1 {
        (modifier - 1) as u16
    } else {
        0
    };
    if bits & 2 != 0 {
        KeyKind::Alt(Box::new(base))
    } else {
        base
    }
}

/// Classify a control sequence ending in a letter.
fn classify_csi_final(final_byte: u8, params: &Vec<u16>) -> (r: KeyKind)
    ensures
        r == classify_csi_final_spec(final_byte, params@),
{
    let base: KeyKind = if final_byte == 65 {
        KeyKind::Arrow(Direction::Up)
    } else if final_byte == 66 {
        KeyKind::Arrow(Direction::Down)
    } else if final_byte == 67 {
        KeyKind::Arrow(Direction::Right)
    } else if final_byte == 68 {
        KeyKind::Arrow(Direction::Left)
    } else if final_byte == 72 {
        KeyKind::Nav(NavKey::Home)
    } else if final_byte == 70 {
        KeyKind::Nav(NavKey::End)
    } else {
        return KeyKind::Unknown;
    };
    if params.len() >= 2 {
        wrap_modifier(base, params[1])
    } else {
        base
    }
}

/// The classification of a tilde-terminated control sequence.
pub open spec fn classify_tilde_spec(params: Seq<u16>) -> KeyKind {
    let code: u16 = if params.len() > 0 {
        params[0]
    } else {
        0
    };
    let base: KeyKind = if code == 2 {
        KeyKind::Nav(NavKey::Insert)
    } else if code == 3 {
        KeyKind::Nav(NavKey::Delete)
    } else if code == 5 {
        KeyKind::Nav(NavKey::PageUp)
    } else if code == 6 {
        KeyKind::Nav(NavKey::PageDown)
    } else if code == 15 {
        KeyKind::Function(5)
    } else if code == 17 {
        KeyKind::Function(6)
    } else if code == 18 {
        KeyKind::Function(7)
    } else if code == 19 {
        KeyKind::Function(8)
    } else if code == 20 {
        KeyKind::Function(9)
    } else if code == 21 {
        KeyKind::Function(10)
    } else if code == 23 {
        KeyKind::Function(11)
    } else if code == 24 {
        KeyKind::Function(12)
    } else {
        KeyKind::Unknown
    };
    if base is Unknown {
        base
    } else if params.len() >= 2 {
        wrap_modifier_spec(base, params[1])
    } else {
        base
    }
}

/// Classify a tilde-terminated control sequence.
fn classify_tilde_key(params: &Vec<u16>) -> (r: KeyKind)
    ensures
        r == classify_tilde_spec(params@),
{
    let code: u16 = if params.len() > 0 {
        params[0]
    } else {
        0
    };
    let base: KeyKind = if code == 2 {
        KeyKind::Nav(NavKey::Insert)
    } else if code == 3 {
        KeyKind::Nav(NavKey::Delete)
    } else if code == 5 {
        KeyKind::Nav(NavKey::PageUp)
    } else if code == 6 {
        KeyKind::Nav(NavKey::PageDown)
    } else if code == 15 {
        KeyKind::Function(5)
    } else if code == 17 {
        KeyKind::Function(6)
    } else if code == 18 {
        KeyKind::Function(7)
    } else if code == 19 {
        KeyKind::Function(8)
    } else if code == 20 {
        KeyKind::Function(9)
    } else if code == 21 {
        KeyKind::Function(10)
    } else if code == 23 {
        KeyKind::Function(11)
    } else if code == 24 {
        KeyKind::Function(12)
    } else {
        return KeyKind::Unknown;
    };
    if params.len() >= 2 {
        wrap_modifier(base, params[1])
    } else {
        base
    }
}

/// Wrap a classification per the xterm modifier parameter.
fn wrap_modifier(base: KeyKind, modifier: u16) -> (r: KeyKind)
    ensures
        r == wrap_modifier_spec(base, modifier),
{
    let bits: u16 = if modifier >= 1 {
        modifier - 1
    } else {
        0
    };
    if bits & 2 != 0 {
        KeyKind::Alt(Box::new(base))
    } else {
        base
    }
}

/// Decode an X10 mouse report from its button code and position.
pub open spec fn decode_x10_spec(code: u8, col: u16, row: u16) -> MouseEvent {
    let low = code & 0x03;
    if code & 64 != 0 {
        if low == 0 {
            MouseEvent::ScrollUp { col, row }
        } else {
            MouseEvent::ScrollDown { col, row }
        }
    } else if code & 32 != 0 {
        if low == 3 {
            MouseEvent::Move { col, row }
        } else {
            MouseEvent::Drag { button: button_of(low), col, row }
        }
    } else if low == 3 {
        MouseEvent::Up { col, row }
    } else {
        MouseEvent::Down { button: button_of(low), col, row }
    }
}

/// The button a low code names; anything out of range reads as left.
pub open spec fn button_of(low: u8) -> MouseButton {
    if low == 1 {
        MouseButton::Middle
    } else if low == 2 {
        MouseButton::Right
    } else {
        MouseButton::Left
    }
}

/// Decode an X10 mouse report.
fn decode_x10_mouse(code: u8, col: u16, row: u16) -> (r: MouseEvent)
    ensures
        r == decode_x10_spec(code, col, row),
{
    let low_bits = code & 0x03;
    let is_drag = code & 32 != 0;
    let is_scroll = code & 64 != 0;

    if is_scroll {
        if low_bits == 0 {
            MouseEvent::ScrollUp { col, row }
        } else {
            MouseEvent::ScrollDown { col, row }
        }
    } else if is_drag {
        if low_bits == 3 {
            MouseEvent::Move { col, row }
        } else {
            MouseEvent::Drag { button: exec_button_of(low_bits), col, row }
        }
    } else if low_bits == 3 {
        MouseEvent::Up { col, row }
    } else {
        MouseEvent::Down { button: exec_button_of(low_bits), col, row }
    }
}

fn exec_button_of(low: u8) -> (r: MouseButton)
    ensures
        r == button_of(low),
{
    if low == 1 {
        MouseButton::Middle
    } else if low == 2 {
        MouseButton::Right
    } else {
        MouseButton::Left
    }
}

/// The first index at or after `i` holding `<`, or -1 when none does.
pub open spec fn find_lt(buf: Seq<u8>, i: nat) -> int
    decreases buf.len() - i,
{
    if i >= buf.len() {
        -1
    } else if buf[i as int] == 60 {
        i as int
    } else {
        find_lt(buf, i + 1)
    }
}

/// Searching for `<` may start after any prefix free of it.
proof fn lemma_find_lt_skip(buf: Seq<u8>, j: nat)
    requires
        j <= buf.len(),
        forall|k: int| 0 <= k < j ==> buf[k] != 60,
    ensures
        find_lt(buf, 0) == find_lt(buf, j),
    decreases j,
{
    if j > 0 {
        lemma_find_lt_skip(buf, (j - 1) as nat);
        assert(find_lt(buf, (j - 1) as nat) == find_lt(buf, j));
    }
}

/// The mouse event a collected SGR sequence reports: the parameters after
/// the first `<` — button code, one-based column and row — and whether
/// the final byte reported a release.
pub open spec fn sgr_mouse_spec(buf: Seq<u8>, is_release: bool) -> Option<MouseEvent> {
    let lt = find_lt(buf, 0);
    if lt < 0 {
        None
    } else if buf.len() == 0 || lt + 1 > buf.len() - 1 {
        None
    } else {
        let parts = split_params_spec(buf.subrange(lt + 1, buf.len() - 1));
        if parts.len() < 3 {
            None
        } else {
            let code = parts[0];
            let col: u16 = if parts[1] >= 1 {
                (parts[1] - 1) as u16
            } else {
                0
            };
            let row: u16 = if parts[2] >= 1 {
                (parts[2] - 1) as u16
            } else {
                0
            };
            let low: u8 = (code & 0x03) as u8;
            if code & 64 != 0 {
                if low == 0 {
                    Some(MouseEvent::ScrollUp { col, row })
                } else {
                    Some(MouseEvent::ScrollDown { col, row })
                }
            } else if is_release {
                Some(MouseEvent::Up { col, row })
            } else if code & 32 != 0 {
                if low == 3 {
                    Some(MouseEvent::Move { col, row })
                } else {
                    Some(MouseEvent::Drag { button: button_of(low), col, row })
                }
            } else {
                Some(MouseEvent::Down { button: button_of(low), col, row })
            }
        }
    }
}

/// Parse a collected SGR mouse sequence.
fn parse_sgr_mouse(buf: &[u8], is_release: bool) -> (r: Option<MouseEvent>)
    ensures
        r == sgr_mouse_spec(buf@, is_release),
{
    let mut lt_pos: usize = 0;
    let mut found = false;
    let mut i: usize = 0;
    while i < buf.len()
        invariant
            i <= buf@.len(),
            found ==> lt_pos < i && buf@[lt_pos as int] == 60 && forall|k: int|
                0 <= k < lt_pos ==> buf@[k] != 60,
            !found ==> forall|k: int| 0 <= k < i ==> buf@[k] != 60,
        decreases buf@.len() - i,
    {
        if !found && buf[i] == 60 {
            lt_pos = i;
            found = true;
        }
        i = i + 1;
    }
    if !found {
        proof {
            lemma_find_lt_skip(buf@, buf@.len());
        }
        return None;
    }
    proof {
        lemma_find_lt_skip(buf@, lt_pos as nat);
        assert(find_lt(buf@, 0) == lt_pos);
    }
    if buf.len() == 0 || lt_pos + 1 > buf.len() - 1 {
        return None;
    }
    let parts = split_params(&buf[lt_pos + 1..buf.len() - 1]);
    if parts.len() < 3 {
        return None;
    }
    let code = parts[0];
    let col: u16 = if parts[1] >= 1 {
        parts[1] - 1
    } else {
        0
    };
    let row: u16 = if parts[2] >= 1 {
        parts[2] - 1
    } else {
        0
    };
    let low: u8 = (code & 0x03) as u8;
    let is_drag = code & 32 != 0;
    let is_scroll = code & 64 != 0;
    if is_scroll {
        return Some(
            if low == 0 {
                MouseEvent::ScrollUp { col, row }
            } else {
                MouseEvent::ScrollDown { col, row }
            },
        );
    }
    if is_release {
        return Some(MouseEvent::Up { col, row });
    }
    if is_drag {
        if low == 3 {
            return Some(MouseEvent::Move { col, row });
        }
        return Some(MouseEvent::Drag { button: exec_button_of(low), col, row });
    }
    Some(MouseEvent::Down { button: exec_button_of(low), col, row })
}

/// The model of one parsed event: raw bytes and classification for a key,
/// the event itself for the mouse, the decoded text for a paste.
#[verifier::ext_equal]
pub enum EventModel {
    Key { raw: Seq<u8>, kind: KeyKind },
    Mouse(MouseEvent),
    Paste(Seq<char>),
}

/// The model of an event value.
pub open spec fn event_model(e: InputEvent) -> EventModel {
    match e {
        InputEvent::Key(k) => EventModel::Key { raw: k.raw@, kind: k.kind },
        InputEvent::Mouse(m) => EventModel::Mouse(m),
        InputEvent::Paste(s) => EventModel::Paste(s@),
    }
}

/// The models of a run of events, in order.
pub open spec fn events_model(s: Seq<InputEvent>) -> Seq<EventModel> {
    s.map_values(|e: InputEvent| event_model(e))
}

/// The parser's mode.
pub enum Mode {
    Ground,
    Esc,
    CsiEntry,
    CsiParam,
    Ss3,
    MouseX10 { count: u8 },
    Sgr,
    Paste,
    Utf8 { remaining: u8 },
}

/// The parser's model: its mode, the bytes collected toward the open
/// sequence, the paste text buffer, and the finished events not yet
/// handed out.
#[verifier::ext_equal]
pub struct Machine {
    pub mode: Mode,
    pub buf: Seq<u8>,
    pub paste: Seq<char>,
    pub events: Seq<EventModel>,
}

/// The machine with one key event appended.
pub open spec fn emit(m: Machine, raw: Seq<u8>, kind: KeyKind) -> Machine {
    Machine { events: m.events.push(EventModel::Key { raw, kind }), ..m }
}

/// The letter a control byte names: `0x01` is `a`, through `0x1a` as `z`.
pub open spec fn control_letter_spec(b: u8) -> char {
    ((96 + b) as u8) as char
}

/// One byte at ground: plain keys are emitted at once; an escape or a
/// UTF-8 lead byte opens a sequence.
pub open spec fn ground_step(m: Machine, b: u8) -> Machine {
    if b == 0x1b {
        Machine { mode: Mode::Esc, buf: seq![0x1bu8], ..m }
    } else if b == 0x0d {
        emit(m, seq![b], KeyKind::Enter)
    } else if b == 0x09 {
        emit(m, seq![b], KeyKind::Tab)
    } else if b == 0x7f {
        emit(m, seq![b], KeyKind::Backspace)
    } else if 0x01 <= b && b <= 0x1a {
        emit(m, seq![b], KeyKind::Control(control_letter_spec(b)))
    } else if 0x20 <= b && b <= 0x7e {
        emit(m, seq![b], KeyKind::Char(b as char))
    } else if 0xc0 <= b && b <= 0xdf {
        Machine { mode: Mode::Utf8 { remaining: 1 }, buf: seq![b], ..m }
    } else if 0xe0 <= b && b <= 0xef {
        Machine { mode: Mode::Utf8 { remaining: 2 }, buf: seq![b], ..m }
    } else if 0xf0 <= b && b <= 0xf7 {
        Machine { mode: Mode::Utf8 { remaining: 3 }, buf: seq![b], ..m }
    } else {
        emit(m, seq![b], KeyKind::Unknown)
    }
}

/// One byte after an escape: a bracket opens a control sequence, `O` a
/// single-shift, and anything else resolves as an alt combination or
/// unknown.
pub open spec fn esc_step(m: Machine, b: u8) -> Machine {
    if b == 91 {
        Machine { mode: Mode::CsiEntry, buf: m.buf.push(b), ..m }
    } else if b == 79 {
        Machine { mode: Mode::Ss3, buf: m.buf.push(b), ..m }
    } else if b == 0x1b {
        Machine {
            buf: seq![0x1bu8],
            events: m.events.push(EventModel::Key { raw: seq![0x1bu8], kind: KeyKind::Escape }),
            ..m
        }
    } else if b == 0x7f {
        Machine {
            mode: Mode::Ground,
            buf: Seq::empty(),
            events: m.events.push(
                EventModel::Key {
                    raw: m.buf.push(b),
                    kind: KeyKind::Alt(Box::new(KeyKind::Backspace)),
                },
            ),
            ..m
        }
    } else if 0x01 <= b && b <= 0x1a {
        Machine {
            mode: Mode::Ground,
            buf: Seq::empty(),
            events: m.events.push(
                EventModel::Key {
                    raw: m.buf.push(b),
                    kind: KeyKind::Alt(Box::new(KeyKind::Control(control_letter_spec(b)))),
                },
            ),
            ..m
        }
    } else if 0x20 <= b && b <= 0x7e {
        Machine {
            mode: Mode::Ground,
            buf: Seq::empty(),
            events: m.events.push(
                EventModel::Key {
                    raw: m.buf.push(b),
                    kind: KeyKind::Alt(Box::new(KeyKind::Char(b as char))),
                },
            ),
            ..m
        }
    } else {
        Machine {
            mode: Mode::Ground,
            buf: Seq::empty(),
            events: m.events.push(
                EventModel::Key { raw: m.buf.push(b), kind: KeyKind::Unknown },
            ),
            ..m
        }
    }
}

/// One byte just after the control-sequence introducer.
pub open spec fn csi_entry_step(m: Machine, b: u8) -> Machine {
    if b == 77 {
        Machine { mode: Mode::MouseX10 { count: 0 }, buf: m.buf.push(b), ..m }
    } else if b == 60 {
        Machine { mode: Mode::Sgr, buf: m.buf.push(b), ..m }
    } else if b == 65 || b == 66 || b == 67 || b == 68 || b == 72 || b == 70 {
        Machine {
            mode: Mode::Ground,
            buf: Seq::empty(),
            events: m.events.push(
                EventModel::Key {
                    raw: m.buf.push(b),
                    kind: classify_csi_final_spec(b, Seq::empty()),
                },
            ),
            ..m
        }
    } else if (48 <= b && b <= 57) || b == 59 {
        Machine { mode: Mode::CsiParam, buf: m.buf.push(b), ..m }
    } else {
        Machine {
            mode: Mode::Ground,
            buf: Seq::empty(),
            events: m.events.push(
                EventModel::Key { raw: m.buf.push(b), kind: KeyKind::Unknown },
            ),
            ..m
        }
    }
}

/// One byte while collecting control-sequence parameters.
pub open spec fn csi_param_step(m: Machine, b: u8) -> Machine {
    if (48 <= b && b <= 57) || b == 59 {
        Machine { buf: m.buf.push(b), ..m }
    } else if b == 126 {
        let buf2 = m.buf.push(b);
        let params = extract_csi_params_spec(buf2);
        if params.len() > 0 && params[0] == 200 {
            Machine { mode: Mode::Paste, buf: Seq::empty(), paste: Seq::empty(), ..m }
        } else {
            Machine {
                mode: Mode::Ground,
                buf: Seq::empty(),
                events: m.events.push(
                    EventModel::Key { raw: buf2, kind: classify_tilde_spec(params) },
                ),
                ..m
            }
        }
    } else if 0x40 <= b && b <= 0x7e {
        let buf2 = m.buf.push(b);
        Machine {
            mode: Mode::Ground,
            buf: Seq::empty(),
            events: m.events.push(
                EventModel::Key {
                    raw: buf2,
                    kind: classify_csi_final_spec(b, extract_csi_params_spec(buf2)),
                },
            ),
            ..m
        }
    } else {
        Machine {
            mode: Mode::Ground,
            buf: Seq::empty(),
            events: m.events.push(
                EventModel::Key { raw: m.buf.push(b), kind: KeyKind::Unknown },
            ),
            ..m
        }
    }
}

/// The key a single-shift final byte names.
pub open spec fn ss3_kind(b: u8) -> KeyKind {
    if b == 65 {
        KeyKind::Arrow(Direction::Up)
    } else if b == 66 {
        KeyKind::Arrow(Direction::Down)
    } else if b == 67 {
        KeyKind::Arrow(Direction::Right)
    } else if b == 68 {
        KeyKind::Arrow(Direction::Left)
    } else if b == 72 {
        KeyKind::Nav(NavKey::Home)
    } else if b == 70 {
        KeyKind::Nav(NavKey::End)
    } else if b == 80 {
        KeyKind::Function(1)
    } else if b == 81 {
        KeyKind::Function(2)
    } else if b == 82 {
        KeyKind::Function(3)
    } else if b == 83 {
        KeyKind::Function(4)
    } else {
        KeyKind::Unknown
    }
}

/// One byte after a single-shift introducer: it names the key.
pub open spec fn ss3_step(m: Machine, b: u8) -> Machine {
    Machine {
        mode: Mode::Ground,
        buf: Seq::empty(),
        events: m.events.push(EventModel::Key { raw: m.buf.push(b), kind: ss3_kind(b) }),
        ..m
    }
}

/// One byte of the three of an X10 mouse report.
pub open spec fn mouse_x10_step(m: Machine, b: u8, count: u8) -> Machine {
    let buf2 = m.buf.push(b);
    let new_count: u8 = if count >= 2 {
        3
    } else {
        (count + 1) as u8
    };
    if new_count < 3 {
        Machine { mode: Mode::MouseX10 { count: new_count }, buf: buf2, ..m }
    } else if buf2.len() < 3 {
        Machine {
            mode: Mode::Ground,
            buf: Seq::empty(),
            events: m.events.push(EventModel::Key { raw: buf2, kind: KeyKind::Unknown }),
            ..m
        }
    } else {
        let l = buf2.len() as int;
        let code = buf2[l - 3].wrapping_sub(32);
        let col = buf2[l - 2].wrapping_sub(33) as u16;
        let row = buf2[l - 1].wrapping_sub(33) as u16;
        Machine {
            mode: Mode::Ground,
            buf: Seq::empty(),
            events: m.events.push(EventModel::Mouse(decode_x10_spec(code, col, row))),
            ..m
        }
    }
}

/// One byte of an SGR mouse report, collected until its final byte.
pub open spec fn sgr_step(m: Machine, b: u8) -> Machine {
    let buf2 = m.buf.push(b);
    if b == 77 || b == 109 {
        match sgr_mouse_spec(buf2, b == 109) {
            Some(event) => Machine {
                mode: Mode::Ground,
                buf: Seq::empty(),
                events: m.events.push(EventModel::Mouse(event)),
                ..m
            },
            None => Machine {
                mode: Mode::Ground,
                buf: Seq::empty(),
                events: m.events.push(EventModel::Key { raw: buf2, kind: KeyKind::Unknown }),
                ..m
            },
        }
    } else if (48 <= b && b <= 57) || b == 59 {
        Machine { buf: buf2, ..m }
    } else {
        Machine {
            mode: Mode::Ground,
            buf: Seq::empty(),
            events: m.events.push(EventModel::Key { raw: buf2, kind: KeyKind::Unknown }),
            ..m
        }
    }
}

/// One byte of paste content, collected until the end marker.
pub open spec fn paste_step(m: Machine, b: u8) -> Machine {
    let buf2 = m.buf.push(b);
    let n = buf2.len() as int;
    if n >= 6 && buf2[n - 6] == 0x1b && buf2[n - 5] == 91 && buf2[n - 4] == 50 && buf2[n - 3]
        == 48 && buf2[n - 2] == 49 && buf2[n - 1] == 126 {
        Machine {
            mode: Mode::Ground,
            buf: Seq::empty(),
            paste: Seq::empty(),
            events: m.events.push(
                EventModel::Paste(crate::strutil::lossy_decode(buf2.take(n - 6))),
            ),
        }
    } else {
        Machine { buf: buf2, ..m }
    }
}

/// The scalar value a collected multi-byte UTF-8 run encodes, folded one
/// continuation byte at a time; `None` on a malformed or over-wide run.
pub open spec fn utf8_acc(cp: u32, rest: Seq<u8>) -> Option<u32>
    decreases rest.len(),
{
    if rest.len() == 0 {
        Some(cp)
    } else if rest[0] & 0xC0 != 0x80 {
        None
    } else {
        let cp2 = ((cp << 6u32) | ((rest[0] & 0x3f) as u32)) as u32;
        if cp2 >= 0x200000 {
            None
        } else {
            utf8_acc(cp2, rest.drop_first())
        }
    }
}

/// One step of the fold, written out.
proof fn lemma_utf8_acc_unfold(cp: u32, rest: Seq<u8>)
    requires
        rest.len() > 0,
    ensures
        utf8_acc(cp, rest) == (if rest[0] & 0xC0 != 0x80 {
            Option::<u32>::None
        } else {
            if ((cp << 6u32) | ((rest[0] & 0x3f) as u32)) as u32 >= 0x200000 {
                Option::<u32>::None
            } else {
                utf8_acc(((cp << 6u32) | ((rest[0] & 0x3f) as u32)) as u32, rest.drop_first())
            }
        }),
{
}

/// The character one complete multi-byte UTF-8 sequence decodes to:
/// `None` when malformed, overlong, a surrogate, or out of range.
pub open spec fn utf8_decode_spec(raw: Seq<u8>) -> Option<char> {
    if raw.len() < 2 || raw.len() > 4 {
        None
    } else {
        let lead = raw[0];
        if raw.len() == 2 && 0xc0 <= lead && lead <= 0xdf {
            utf8_finish((lead & 0x1f) as u32, 0x80, raw.drop_first())
        } else if raw.len() == 3 && 0xe0 <= lead && lead <= 0xef {
            utf8_finish((lead & 0x0f) as u32, 0x800, raw.drop_first())
        } else if raw.len() == 4 && 0xf0 <= lead && lead <= 0xf7 {
            utf8_finish((lead & 0x07) as u32, 0x10000, raw.drop_first())
        } else {
            None
        }
    }
}

/// The continuation bytes folded in and checked against the overlong
/// bound and the scalar range.
pub open spec fn utf8_finish(cp0: u32, min: u32, rest: Seq<u8>) -> Option<char> {
    match utf8_acc(cp0, rest) {
        None => None,
        Some(cp) => if cp < min {
            None
        } else if cp < 0xD800 || (0xDFFF < cp && cp <= 0x10FFFF) {
            Some(cp as char)
        } else {
            None
        },
    }
}

/// One UTF-8 continuation byte: collect until the sequence is complete,
/// then decode; a malformed byte aborts the run as unknown and is
/// reprocessed from ground.
pub open spec fn utf8_cont_step(m: Machine, b: u8, remaining: u8) -> Machine {
    if b & 0xC0 != 0x80 {
        ground_step(
            Machine {
                mode: Mode::Ground,
                buf: Seq::empty(),
                events: m.events.push(
                    EventModel::Key { raw: m.buf, kind: KeyKind::Unknown },
                ),
                ..m
            },
            b,
        )
    } else {
        let buf2 = m.buf.push(b);
        if remaining > 1 {
            Machine { mode: Mode::Utf8 { remaining: (remaining - 1) as u8 }, buf: buf2, ..m }
        } else {
            Machine {
                mode: Mode::Ground,
                buf: Seq::empty(),
                events: m.events.push(
                    EventModel::Key {
                        raw: buf2,
                        kind: match utf8_decode_spec(buf2) {
                            Some(c) => KeyKind::Char(c),
                            None => KeyKind::Unknown,
                        },
                    },
                ),
                ..m
            }
        }
    }
}

/// One byte stepped through the machine, whatever its mode.
pub open spec fn machine_step(m: Machine, b: u8) -> Machine {
    match m.mode {
        Mode::Ground => ground_step(m, b),
        Mode::Esc => esc_step(m, b),
        Mode::CsiEntry => csi_entry_step(m, b),
        Mode::CsiParam => csi_param_step(m, b),
        Mode::Ss3 => ss3_step(m, b),
        Mode::MouseX10 { count } => mouse_x10_step(m, b, count),
        Mode::Sgr => sgr_step(m, b),
        Mode::Paste => paste_step(m, b),
        Mode::Utf8 { remaining } => utf8_cont_step(m, b, remaining),
    }
}

/// A byte run stepped through the machine, left to right.
pub open spec fn machine_steps(m: Machine, data: Seq<u8>) -> Machine
    decreases data.len(),
{
    if data.len() == 0 {
        m
    } else {
        machine_steps(machine_step(m, data[0]), data.drop_first())
    }
}

/// Stepping a run and then one more byte is stepping the extended run.
pub proof fn lemma_machine_steps_snoc(m: Machine, data: Seq<u8>, b: u8)
    ensures
        machine_steps(m, data.push(b)) == machine_step(machine_steps(m, data), b),
    decreases data.len(),
{
    if data.len() == 0 {
        assert(data.push(b).drop_first() =~= Seq::<u8>::empty());
        assert(data.push(b)[0] == b);
        assert(machine_steps(machine_step(m, b), Seq::<u8>::empty()) == machine_step(m, b));
        assert(machine_steps(m, data.push(b)) == machine_steps(
            machine_step(m, b),
            Seq::<u8>::empty(),
        ));
        assert(machine_steps(m, data) == m);
    } else {
        assert(data.push(b)[0] == data[0]);
        assert(data.push(b).drop_first() =~= data.drop_first().push(b));
        lemma_machine_steps_snoc(machine_step(m, data[0]), data.drop_first(), b);
        assert(machine_steps(m, data.push(b)) == machine_steps(
            machine_step(m, data[0]),
            data.drop_first().push(b),
        ));
        assert(machine_steps(m, data) == machine_steps(
            machine_step(m, data[0]),
            data.drop_first(),
        ));
    }
}

/// What a timeout resolves: a lone escape becomes an escape key, an
/// incomplete sequence is emitted as unknown with its raw bytes, an
/// unterminated paste is emitted with what the text buffer holds, and the
/// machine returns to ground.
pub open spec fn flush_step(m: Machine) -> Machine {
    match m.mode {
        Mode::Ground => m,
        Mode::Esc => Machine {
            mode: Mode::Ground,
            buf: Seq::empty(),
            events: m.events.push(
                EventModel::Key { raw: seq![0x1bu8], kind: KeyKind::Escape },
            ),
            ..m
        },
        Mode::Paste => Machine {
            mode: Mode::Ground,
            buf: Seq::empty(),
            paste: Seq::empty(),
            events: m.events.push(EventModel::Paste(m.paste)),
        },
        _ => Machine {
            mode: Mode::Ground,
            buf: Seq::empty(),
            events: m.events.push(EventModel::Key { raw: m.buf, kind: KeyKind::Unknown }),
            ..m
        },
    }
}

/// Terminal input parser — a pure state machine over bytes.
pub struct InputParser {
    state: State,
    buf: Vec<u8>,
    paste_buf: String,
    out: VecDeque<InputEvent>,
}

impl InputParser {
    /// The mode a parser state models.
    closed spec fn mode_model(s: State) -> Mode {
        match s {
            State::Ground => Mode::Ground,
            State::EscReceived => Mode::Esc,
            State::CsiEntry => Mode::CsiEntry,
            State::CsiParam => Mode::CsiParam,
            State::Ss3Pending => Mode::Ss3,
            State::MouseX10 { count } => Mode::MouseX10 { count },
            State::SgrMouse => Mode::Sgr,
            State::PasteBuf => Mode::Paste,
            State::Utf8 { remaining } => Mode::Utf8 { remaining },
        }
    }

    /// The parser's model.
    pub closed spec fn model(self) -> Machine {
        Machine {
            mode: Self::mode_model(self.state),
            buf: self.buf@,
            paste: self.paste_buf@,
            events: events_model(self.out@),
        }
    }

    /// Whether the parser sits at ground.
    pub open spec fn at_ground(self) -> bool {
        self.model().mode is Ground
    }

    /// How many finished events wait in the queue.
    pub open spec fn queued(self) -> nat {
        self.model().events.len()
    }

    /// A parser at ground state with nothing pending.
    pub fn new() -> (r: Self)
        ensures
            r.model() == (Machine {
                mode: Mode::Ground,
                buf: Seq::empty(),
                paste: Seq::empty(),
                events: Seq::empty(),
            }),
            r.at_ground(),
            r.queued() == 0,
    {
        let r = InputParser {
            state: State::Ground,
            buf: Vec::with_capacity(32),
            paste_buf: String::new(),
            out: VecDeque::new(),
        };
        proof {
            assert(r.model() =~~= (Machine {
                mode: Mode::Ground,
                buf: Seq::empty(),
                paste: Seq::empty(),
                events: Seq::empty(),
            }));
        }
        r
    }

    /// Feed raw bytes to the parser and return every event they
    /// completed, in order; the queue is left drained.
    pub fn feed(&mut self, data: &[u8]) -> (r: Vec<InputEvent>)
        ensures
            final(self).model() == (Machine {
                events: Seq::empty(),
                ..machine_steps(old(self).model(), data@)
            }),
            events_model(r@) == machine_steps(old(self).model(), data@).events,
            final(self).queued() == 0,
    {
        proof {
            assert(data@.take(0) =~= Seq::<u8>::empty());
        }
        let mut i: usize = 0;
        while i < data.len()
            invariant
                i <= data@.len(),
                self.model() == machine_steps(old(self).model(), data@.take(i as int)),
            decreases data@.len() - i,
        {
            proof {
                assert(data@.take(i + 1) =~= data@.take(i as int).push(data@[i as int]));
                lemma_machine_steps_snoc(old(self).model(), data@.take(i as int), data@[i as int]);
            }
            self.step(data[i]);
            i = i + 1;
        }
        proof {
            assert(data@.take(data@.len() as int) =~= data@);
        }
        self.drain()
    }

    /// Resolve pending state after a timeout, as `flush_step` says; the
    /// parser returns to ground and the queue is drained.
    pub fn flush(&mut self) -> (r: Vec<InputEvent>)
        ensures
            final(self).model() == (Machine {
                events: Seq::empty(),
                ..flush_step(old(self).model())
            }),
            events_model(r@) == flush_step(old(self).model()).events,
            final(self).at_ground(),
            final(self).queued() == 0,
    {
        match self.state {
            State::EscReceived => {
                let mut raw: Vec<u8> = Vec::new();
                raw.push(0x1b);
                proof {
                    assert(raw@ =~= seq![0x1bu8]);
                }
                self.emit_key(raw, KeyKind::Escape);
                self.state = State::Ground;
                self.buf.clear();
                proof {
                    assert(self.model() =~~= flush_step(old(self).model()));
                }
            },
            State::CsiEntry | State::CsiParam | State::Ss3Pending | State::SgrMouse
            | State::MouseX10 { .. } | State::Utf8 { .. } => {
                let mut raw: Vec<u8> = Vec::new();
                core::mem::swap(&mut self.buf, &mut raw);
                self.emit_key(raw, KeyKind::Unknown);
                self.state = State::Ground;
                proof {
                    assert(self.model() =~~= flush_step(old(self).model()));
                }
            },
            State::PasteBuf => {
                let mut text = String::new();
                core::mem::swap(&mut self.paste_buf, &mut text);
                self.out.push_back(InputEvent::Paste(text));
                self.buf.clear();
                self.state = State::Ground;
                proof {
                    assert(events_model(self.out@) =~= events_model(old(self).out@).push(
                        EventModel::Paste(old(self).paste_buf@),
                    ));
                    assert(self.model() =~~= flush_step(old(self).model()));
                }
            },
            State::Ground => {
                proof {
                    assert(self.model() =~~= flush_step(old(self).model()));
                }
            },
        }
        self.drain()
    }

    /// Whether pending state needs a timeout to resolve.
    pub fn has_pending(&self) -> (r: bool)
        ensures
            r == !self.at_ground(),
    {
        self.state != State::Ground
    }

    /// Take every queued event out, in order.
    fn drain(&mut self) -> (r: Vec<InputEvent>)
        ensures
            final(self).model() == (Machine { events: Seq::empty(), ..old(self).model() }),
            events_model(r@) == old(self).model().events,
    {
        let mut r: Vec<InputEvent> = Vec::new();
        proof {
            assert(events_model(r@) + events_model(self.out@) =~= events_model(old(self).out@));
        }
        loop
            invariant
                self.state == old(self).state,
                self.buf == old(self).buf,
                self.paste_buf == old(self).paste_buf,
                events_model(old(self).out@) == events_model(r@) + events_model(self.out@),
            ensures
                self.out@.len() == 0,
                self.state == old(self).state,
                self.buf == old(self).buf,
                self.paste_buf == old(self).paste_buf,
                events_model(old(self).out@) == events_model(r@) + events_model(self.out@),
            decreases self.out@.len(),
        {
            match self.out.pop_front() {
                Some(e) => {
                    r.push(e);
                    proof {
                        assert(events_model(r@) + events_model(self.out@) =~= events_model(
                            old(self).out@,
                        ));
                    }
                },
                None => {
                    break ;
                },
            }
        }
        proof {
            assert(events_model(self.out@) =~= Seq::<EventModel>::empty());
            assert(events_model(r@) =~= old(self).model().events);
            assert(self.model() =~~= (Machine {
                events: Seq::empty(),
                ..old(self).model()
            }));
        }
        r
    }

    /// Step one byte through the machine.
    fn step(&mut self, byte: u8)
        ensures
            final(self).model() == machine_step(old(self).model(), byte),
    {
        let st = self.state;
        match st {
            State::Ground => self.ground(byte),
            State::EscReceived => self.esc_received(byte),
            State::CsiEntry => self.csi_entry(byte),
            State::CsiParam => self.csi_param(byte),
            State::Ss3Pending => self.ss3_pending(byte),
            State::MouseX10 { count } => self.mouse_x10(byte, count),
            State::SgrMouse => self.sgr_mouse(byte),
            State::PasteBuf => self.paste_byte(byte),
            State::Utf8 { remaining } => self.utf8_cont(byte, remaining),
        }
    }

    /// Ground state: plain keys are emitted at once; an escape or a UTF-8
    /// lead byte opens a sequence.
    fn ground(&mut self, byte: u8)
        ensures
            final(self).model() == ground_step(old(self).model(), byte),
    {
        if byte == 0x1b {
            self.buf.clear();
            self.buf.push(0x1b);
            self.state = State::EscReceived;
            proof {
                assert(self.buf@ =~= seq![0x1bu8]);
                assert(self.model() =~~= ground_step(old(self).model(), byte));
            }
        } else if byte == 0x0d {
            self.emit_single(byte, KeyKind::Enter);
        } else if byte == 0x09 {
            self.emit_single(byte, KeyKind::Tab);
        } else if byte == 0x7f {
            self.emit_single(byte, KeyKind::Backspace);
        } else if 0x01 <= byte && byte <= 0x1a {
            let letter = control_letter(byte);
            self.emit_single(byte, KeyKind::Control(letter));
        } else if 0x20 <= byte && byte <= 0x7e {
            self.emit_single(byte, KeyKind::Char(byte as char));
        } else if 0xc0 <= byte && byte <= 0xdf {
            self.start_utf8(byte, 1);
        } else if 0xe0 <= byte && byte <= 0xef {
            self.start_utf8(byte, 2);
        } else if 0xf0 <= byte && byte <= 0xf7 {
            self.start_utf8(byte, 3);
        } else {
            self.emit_single(byte, KeyKind::Unknown);
        }
    }

    /// Begin collecting a UTF-8 sequence.
    fn start_utf8(&mut self, byte: u8, remaining: u8)
        ensures
            final(self).model() == (Machine {
                mode: Mode::Utf8 { remaining },
                buf: seq![byte],
                ..old(self).model()
            }),
    {
        self.buf.clear();
        self.buf.push(byte);
        self.state = State::Utf8 { remaining };
        proof {
            assert(self.buf@ =~= seq![byte]);
            assert(self.model() =~~= (Machine {
                mode: Mode::Utf8 { remaining },
                buf: seq![byte],
                ..old(self).model()
            }));
        }
    }

    /// A UTF-8 continuation byte: collect until the sequence is complete,
    /// then decode it; a malformed byte aborts the sequence as unknown
    /// and is reprocessed from ground.
    fn utf8_cont(&mut self, byte: u8, remaining: u8)
        ensures
            final(self).model() == utf8_cont_step(old(self).model(), byte, remaining),
    {
        if byte & 0xC0 != 0x80 {
            let mut raw: Vec<u8> = Vec::new();
            core::mem::swap(&mut self.buf, &mut raw);
            self.emit_key(raw, KeyKind::Unknown);
            self.state = State::Ground;
            let ghost mid = self.model();
            proof {
                assert(mid =~~= (Machine {
                    mode: Mode::Ground,
                    buf: Seq::empty(),
                    events: old(self).model().events.push(
                        EventModel::Key { raw: old(self).model().buf, kind: KeyKind::Unknown },
                    ),
                    ..old(self).model()
                }));
            }
            self.ground(byte);
            proof {
                assert(self.model() == utf8_cont_step(old(self).model(), byte, remaining));
            }
            return ;
        }
        self.buf.push(byte);
        if remaining > 1 {
            self.state = State::Utf8 { remaining: (remaining - 1) as u8 };
            proof {
                assert(self.model() =~~= utf8_cont_step(old(self).model(), byte, remaining));
            }
            return ;
        }
        let mut raw: Vec<u8> = Vec::new();
        core::mem::swap(&mut self.buf, &mut raw);
        let kind = match decode_utf8_char(raw.as_slice()) {
            Some(c) => KeyKind::Char(c),
            None => KeyKind::Unknown,
        };
        self.emit_key(raw, kind);
        self.state = State::Ground;
        proof {
            assert(self.model() =~~= utf8_cont_step(old(self).model(), byte, remaining));
        }
    }

    /// After an escape: a bracket opens a control sequence, `O` a
    /// single-shift, and anything else resolves as an alt combination or
    /// unknown.
    fn esc_received(&mut self, byte: u8)
        ensures
            final(self).model() == esc_step(old(self).model(), byte),
    {
        if byte == 91 {
            self.buf.push(byte);
            self.state = State::CsiEntry;
            proof {
                assert(self.model() =~~= esc_step(old(self).model(), byte));
            }
        } else if byte == 79 {
            self.buf.push(byte);
            self.state = State::Ss3Pending;
            proof {
                assert(self.model() =~~= esc_step(old(self).model(), byte));
            }
        } else if byte == 0x1b {
            let mut raw: Vec<u8> = Vec::new();
            raw.push(0x1b);
            proof {
                assert(raw@ =~= seq![0x1bu8]);
            }
            self.emit_key(raw, KeyKind::Escape);
            self.buf.clear();
            self.buf.push(0x1b);
            proof {
                assert(self.buf@ =~= seq![0x1bu8]);
                assert(self.model() =~~= esc_step(old(self).model(), byte));
            }
        } else if byte == 0x7f {
            self.buf.push(byte);
            let mut raw: Vec<u8> = Vec::new();
            core::mem::swap(&mut self.buf, &mut raw);
            self.emit_key(raw, KeyKind::Alt(Box::new(KeyKind::Backspace)));
            self.state = State::Ground;
            proof {
                assert(self.model() =~~= esc_step(old(self).model(), byte));
            }
        } else if 0x01 <= byte && byte <= 0x1a {
            self.buf.push(byte);
            let mut raw: Vec<u8> = Vec::new();
            core::mem::swap(&mut self.buf, &mut raw);
            let letter = control_letter(byte);
            self.emit_key(raw, KeyKind::Alt(Box::new(KeyKind::Control(letter))));
            self.state = State::Ground;
            proof {
                assert(self.model() =~~= esc_step(old(self).model(), byte));
            }
        } else if 0x20 <= byte && byte <= 0x7e {
            self.buf.push(byte);
            let mut raw: Vec<u8> = Vec::new();
            core::mem::swap(&mut self.buf, &mut raw);
            self.emit_key(raw, KeyKind::Alt(Box::new(KeyKind::Char(byte as char))));
            self.state = State::Ground;
            proof {
                assert(self.model() =~~= esc_step(old(self).model(), byte));
            }
        } else {
            self.buf.push(byte);
            let mut raw: Vec<u8> = Vec::new();
            core::mem::swap(&mut self.buf, &mut raw);
            self.emit_key(raw, KeyKind::Unknown);
            self.state = State::Ground;
            proof {
                assert(self.model() =~~= esc_step(old(self).model(), byte));
            }
        }
    }

    /// Just after the control-sequence introducer.
    fn csi_entry(&mut self, byte: u8)
        ensures
            final(self).model() == csi_entry_step(old(self).model(), byte),
    {
        if byte == 77 {
            self.buf.push(byte);
            self.state = State::MouseX10 { count: 0 };
            proof {
                assert(self.model() =~~= csi_entry_step(old(self).model(), byte));
            }
        } else if byte == 60 {
            self.buf.push(byte);
            self.state = State::SgrMouse;
            proof {
                assert(self.model() =~~= csi_entry_step(old(self).model(), byte));
            }
        } else if byte == 65 || byte == 66 || byte == 67 || byte == 68 || byte == 72 || byte == 70 {
            self.buf.push(byte);
            let mut raw: Vec<u8> = Vec::new();
            core::mem::swap(&mut self.buf, &mut raw);
            let empty: Vec<u16> = Vec::new();
            let kind = classify_csi_final(byte, &empty);
            proof {
                assert(empty@ =~= Seq::<u16>::empty());
            }
            self.emit_key(raw, kind);
            self.state = State::Ground;
            proof {
                assert(self.model() =~~= csi_entry_step(old(self).model(), byte));
            }
        } else if (48 <= byte && byte <= 57) || byte == 59 {
            self.buf.push(byte);
            self.state = State::CsiParam;
            proof {
                assert(self.model() =~~= csi_entry_step(old(self).model(), byte));
            }
        } else {
            self.buf.push(byte);
            let mut raw: Vec<u8> = Vec::new();
            core::mem::swap(&mut self.buf, &mut raw);
            self.emit_key(raw, KeyKind::Unknown);
            self.state = State::Ground;
            proof {
                assert(self.model() =~~= csi_entry_step(old(self).model(), byte));
            }
        }
    }

    /// Collecting control-sequence parameters.
    fn csi_param(&mut self, byte: u8)
        ensures
            final(self).model() == csi_param_step(old(self).model(), byte),
    {
        if (48 <= byte && byte <= 57) || byte == 59 {
            self.buf.push(byte);
            proof {
                assert(self.model() =~~= csi_param_step(old(self).model(), byte));
            }
        } else if byte == 126 {
            self.buf.push(byte);
            let params = extract_csi_params(self.buf.as_slice());
            let is_paste_start = params.len() > 0 && params[0] == 200;
            if is_paste_start {
                self.buf.clear();
                self.paste_buf = String::new();
                self.state = State::PasteBuf;
                proof {
                    assert(self.model() =~~= csi_param_step(old(self).model(), byte));
                }
            } else {
                let mut raw: Vec<u8> = Vec::new();
                core::mem::swap(&mut self.buf, &mut raw);
                let kind = classify_tilde_key(&params);
                self.emit_key(raw, kind);
                self.state = State::Ground;
                proof {
                    assert(self.model() =~~= csi_param_step(old(self).model(), byte));
                }
            }
        } else if 0x40 <= byte && byte <= 0x7e {
            self.buf.push(byte);
            let params = extract_csi_params(self.buf.as_slice());
            let mut raw: Vec<u8> = Vec::new();
            core::mem::swap(&mut self.buf, &mut raw);
            let kind = classify_csi_final(byte, &params);
            self.emit_key(raw, kind);
            self.state = State::Ground;
            proof {
                assert(self.model() =~~= csi_param_step(old(self).model(), byte));
            }
        } else {
            self.buf.push(byte);
            let mut raw: Vec<u8> = Vec::new();
            core::mem::swap(&mut self.buf, &mut raw);
            self.emit_key(raw, KeyKind::Unknown);
            self.state = State::Ground;
            proof {
                assert(self.model() =~~= csi_param_step(old(self).model(), byte));
            }
        }
    }

    /// After a single-shift introducer: one final byte names the key.
    fn ss3_pending(&mut self, byte: u8)
        ensures
            final(self).model() == ss3_step(old(self).model(), byte),
    {
        self.buf.push(byte);
        let mut raw: Vec<u8> = Vec::new();
        core::mem::swap(&mut self.buf, &mut raw);
        let kind: KeyKind = if byte == 65 {
            KeyKind::Arrow(Direction::Up)
        } else if byte == 66 {
            KeyKind::Arrow(Direction::Down)
        } else if byte == 67 {
            KeyKind::Arrow(Direction::Right)
        } else if byte == 68 {
            KeyKind::Arrow(Direction::Left)
        } else if byte == 72 {
            KeyKind::Nav(NavKey::Home)
        } else if byte == 70 {
            KeyKind::Nav(NavKey::End)
        } else if byte == 80 {
            KeyKind::Function(1)
        } else if byte == 81 {
            KeyKind::Function(2)
        } else if byte == 82 {
            KeyKind::Function(3)
        } else if byte == 83 {
            KeyKind::Function(4)
        } else {
            KeyKind::Unknown
        };
        self.emit_key(raw, kind);
        self.state = State::Ground;
        proof {
            assert(self.model() =~~= ss3_step(old(self).model(), byte));
        }
    }

    /// Collecting the three bytes of an X10 mouse report.
    fn mouse_x10(&mut self, byte: u8, count: u8)
        ensures
            final(self).model() == mouse_x10_step(old(self).model(), byte, count),
    {
        self.buf.push(byte);
        let new_count = if count >= 2 {
            3
        } else {
            (count + 1) as u8
        };
        if new_count < 3 {
            self.state = State::MouseX10 { count: new_count };
            proof {
                assert(self.model() =~~= mouse_x10_step(old(self).model(), byte, count));
            }
            return ;
        }
        if self.buf.len() < 3 {
            let mut raw: Vec<u8> = Vec::new();
            core::mem::swap(&mut self.buf, &mut raw);
            self.emit_key(raw, KeyKind::Unknown);
            self.state = State::Ground;
            proof {
                assert(self.model() =~~= mouse_x10_step(old(self).model(), byte, count));
            }
            return ;
        }
        let btn_byte = self.buf[self.buf.len() - 3];
        let col_byte = self.buf[self.buf.len() - 2];
        let row_byte = self.buf[self.buf.len() - 1];
        let code = btn_byte.wrapping_sub(32);
        let col = col_byte.wrapping_sub(33) as u16;
        let row = row_byte.wrapping_sub(33) as u16;
        let event = decode_x10_mouse(code, col, row);
        self.buf.clear();
        self.out.push_back(InputEvent::Mouse(event));
        self.state = State::Ground;
        proof {
            assert(events_model(self.out@) =~= events_model(old(self).out@).push(
                EventModel::Mouse(event),
            ));
            assert(self.model() =~~= mouse_x10_step(old(self).model(), byte, count));
        }
    }

    /// Collecting an SGR mouse report until its final byte.
    fn sgr_mouse(&mut self, byte: u8)
        ensures
            final(self).model() == sgr_step(old(self).model(), byte),
    {
        self.buf.push(byte);
        if byte == 77 || byte == 109 {
            let is_release = byte == 109;
            match parse_sgr_mouse(self.buf.as_slice(), is_release) {
                Some(event) => {
                    self.buf.clear();
                    self.out.push_back(InputEvent::Mouse(event));
                    proof {
                        assert(events_model(self.out@) =~= events_model(old(self).out@).push(
                            EventModel::Mouse(event),
                        ));
                    }
                },
                None => {
                    let mut raw: Vec<u8> = Vec::new();
                    core::mem::swap(&mut self.buf, &mut raw);
                    self.emit_key(raw, KeyKind::Unknown);
                },
            }
            self.state = State::Ground;
            proof {
                assert(self.model() =~~= sgr_step(old(self).model(), byte));
            }
        } else if (48 <= byte && byte <= 57) || byte == 59 {
            proof {
                assert(self.model() =~~= sgr_step(old(self).model(), byte));
            }
        } else {
            let mut raw: Vec<u8> = Vec::new();
            core::mem::swap(&mut self.buf, &mut raw);
            self.emit_key(raw, KeyKind::Unknown);
            self.state = State::Ground;
            proof {
                assert(self.model() =~~= sgr_step(old(self).model(), byte));
            }
        }
    }

    /// Collecting paste content until the end marker.
    fn paste_byte(&mut self, byte: u8)
        ensures
            final(self).model() == paste_step(old(self).model(), byte),
    {
        self.buf.push(byte);
        let n = self.buf.len();
        let ends_with_marker = n >= 6 && self.buf[n - 6] == 0x1b && self.buf[n - 5] == 91
            && self.buf[n - 4] == 50 && self.buf[n - 3] == 48 && self.buf[n - 2] == 49
            && self.buf[n - 1] == 126;
        if ends_with_marker {
            let text = crate::strutil::lossy_string(&self.buf.as_slice()[0..n - 6]);
            proof {
                assert(self.buf@.subrange(0, n - 6) =~= self.buf@.take(n - 6));
            }
            self.out.push_back(InputEvent::Paste(text));
            self.buf.clear();
            self.paste_buf = String::new();
            self.state = State::Ground;
            proof {
                assert(events_model(self.out@) =~= events_model(old(self).out@).push(
                    EventModel::Paste(crate::strutil::lossy_decode(
                        old(self).buf@.push(byte).take(old(self).buf@.len() + 1 - 6),
                    )),
                ));
                assert(self.model() =~~= paste_step(old(self).model(), byte));
            }
        } else {
            proof {
                assert(self.model() =~~= paste_step(old(self).model(), byte));
            }
        }
    }

    /// Emit a single-byte key.
    fn emit_single(&mut self, byte: u8, kind: KeyKind)
        ensures
            final(self).model() == emit(old(self).model(), seq![byte], kind),
    {
        let mut raw: Vec<u8> = Vec::new();
        raw.push(byte);
        proof {
            assert(raw@ =~= seq![byte]);
        }
        self.emit_key(raw, kind);
    }

    /// Queue a key event over raw bytes.
    fn emit_key(&mut self, raw: Vec<u8>, kind: KeyKind)
        ensures
            final(self).model() == emit(old(self).model(), raw@, kind),
    {
        self.out.push_back(InputEvent::Key(KeyInput { raw, kind }));
        proof {
            assert(events_model(self.out@) =~= events_model(old(self).out@).push(
                EventModel::Key { raw: raw@, kind },
            ));
        }
    }
}

/// The letter of a control byte: `0x01` is `a`, through `0x1a` as `z`.
fn control_letter(byte: u8) -> (r: char)
    requires
        0x01 <= byte <= 0x1a,
    ensures
        r == control_letter_spec(byte),
{
    let v: u8 = 96 + byte;
    proof {
        assert(97 <= v <= 122);
    }
    v as char
}

/// Decode one complete multi-byte UTF-8 sequence into its character:
/// the collected lead and continuation bytes must encode a scalar of
/// exactly this width, neither overlong nor a surrogate.
fn decode_utf8_char(raw: &[u8]) -> (r: Option<char>)
    ensures
        r == utf8_decode_spec(raw@),
{
    if raw.len() < 2 || raw.len() > 4 {
        return None;
    }
    let lead = raw[0];
    let mut cp: u32;
    let min: u32;
    if raw.len() == 2 && 0xc0 <= lead && lead <= 0xdf {
        cp = (lead & 0x1f) as u32;
        min = 0x80;
    } else if raw.len() == 3 && 0xe0 <= lead && lead <= 0xef {
        cp = (lead & 0x0f) as u32;
        min = 0x800;
    } else if raw.len() == 4 && 0xf0 <= lead && lead <= 0xf7 {
        cp = (lead & 0x07) as u32;
        min = 0x10000;
    } else {
        return None;
    }
    let ghost cp0 = cp;
    proof {
        assert(raw@.drop_first() =~= raw@.skip(1));
        assert(utf8_decode_spec(raw@) == utf8_finish(cp0, min, raw@.drop_first()));
    }
    let mut i: usize = 1;
    while i < raw.len()
        invariant
            1 <= i <= raw@.len(),
            2 <= raw@.len() <= 4,
            cp < 0x200000,
            utf8_acc(cp0, raw@.drop_first()) == utf8_acc(cp, raw@.skip(i as int)),
            utf8_decode_spec(raw@) == utf8_finish(cp0, min, raw@.drop_first()),
        decreases raw@.len() - i,
    {
        proof {
            assert(raw@.skip(i as int).len() > 0);
            assert(raw@.skip(i as int)[0] == raw@[i as int]);
            assert(raw@.skip(i as int).drop_first() =~= raw@.skip(i + 1));
        }
        let b = raw[i];
        let ghost rest = raw@.skip(i as int);
        if b & 0xC0 != 0x80 {
            proof {
                lemma_utf8_acc_unfold(cp, rest);
                assert(rest[0] == b);
                assert(utf8_acc(cp, rest) is None);
            }
            return None;
        }
        proof {
            assert(cp < 0x200000 ==> (cp << 6u32) | ((b & 0x3f) as u32) < 0x8000000) by (bit_vector);
        }
        let ghost cp_old = cp;
        cp = (cp << 6u32) | ((b & 0x3f) as u32);
        proof {
            lemma_utf8_acc_unfold(cp_old, rest);
            assert(rest[0] == b);
            assert(utf8_acc(cp_old, rest) == (if cp >= 0x200000 {
                Option::<u32>::None
            } else {
                utf8_acc(cp, raw@.skip(i + 1))
            }));
        }
        if cp >= 0x200000 {
            return None;
        }
        i = i + 1;
    }
    proof {
        assert(raw@.skip(raw@.len() as int) =~= Seq::<u8>::empty());
        assert(utf8_acc(cp, Seq::<u8>::empty()) == Some(cp));
        assert(utf8_acc(cp0, raw@.drop_first()) == Some(cp));
    }
    if cp < min {
        return None;
    }
    let r = char_from_u32(cp);
    proof {
        match r {
            Some(c) => {
                vstd::utf8::char_u32_cast(c, cp);
            },
            None => {},
        }
    }
    r
}

/// Relies on char::from_u32: a character for every Unicode scalar value —
/// any value up to 0x10FFFF outside the surrogate range — and nothing for
/// the rest.
#[verifier::external_body]
fn char_from_u32(v: u32) -> (r: Option<char>)
    ensures
        r is Some <==> (v < 0xD800 || (0xDFFF < v && v <= 0x10FFFF)),
        r matches Some(c) ==> c as u32 == v,
{
    char::from_u32(v)
}

/// Law: an X10-encodable mouse event fed back through the parser decodes
/// to itself. Feeding the six wire bytes of `to_x10_bytes` to a machine
/// at ground yields exactly one new event, the original mouse event, and
/// leaves the machine at ground.
pub proof fn lemma_x10_roundtrip(m: Machine, e: MouseEvent)
    requires
        m.mode is Ground,
        crate::input::event::position_spec(e).0 <= 222,
        crate::input::event::position_spec(e).1 <= 222,
    ensures
        ({
            let bytes = seq![
                27u8,
                91u8,
                77u8,
                ((crate::input::event::x10_code(e) + 32) % 256) as u8,
                ((crate::input::event::position_spec(e).0 + 33) % 256) as u8,
                ((crate::input::event::position_spec(e).1 + 33) % 256) as u8,
            ];
            machine_steps(m, bytes) == (Machine {
                mode: Mode::Ground,
                buf: Seq::empty(),
                paste: m.paste,
                events: m.events.push(EventModel::Mouse(e)),
            })
        }),
{
    let code8 = ((crate::input::event::x10_code(e) + 32) % 256) as u8;
    let colb = ((crate::input::event::position_spec(e).0 + 33) % 256) as u8;
    let rowb = ((crate::input::event::position_spec(e).1 + 33) % 256) as u8;
    let bytes = seq![27u8, 91u8, 77u8, code8, colb, rowb];
    let m1 = machine_step(m, 27);
    let m2 = machine_step(m1, 91);
    let m3 = machine_step(m2, 77);
    let m4 = machine_step(m3, code8);
    let m5 = machine_step(m4, colb);
    let m6 = machine_step(m5, rowb);
    assert(bytes.drop_first() =~= seq![91u8, 77u8, code8, colb, rowb]);
    assert(bytes.drop_first().drop_first() =~= seq![77u8, code8, colb, rowb]);
    assert(bytes.drop_first().drop_first().drop_first() =~= seq![code8, colb, rowb]);
    assert(bytes.drop_first().drop_first().drop_first().drop_first() =~= seq![colb, rowb]);
    assert(bytes.drop_first().drop_first().drop_first().drop_first().drop_first() =~= seq![rowb]);
    assert(bytes.drop_first().drop_first().drop_first().drop_first().drop_first().drop_first()
        =~= Seq::<u8>::empty());
    assert(bytes[0] == 27u8 && bytes.drop_first()[0] == 91u8 && bytes.drop_first().drop_first()[0]
        == 77u8);
    assert(machine_steps(m, bytes) == machine_steps(m1, bytes.drop_first()));
    assert(machine_steps(m1, bytes.drop_first()) == machine_steps(
        m2,
        bytes.drop_first().drop_first(),
    ));
    assert(machine_steps(m2, bytes.drop_first().drop_first()) == machine_steps(
        m3,
        bytes.drop_first().drop_first().drop_first(),
    ));
    assert(machine_steps(m3, bytes.drop_first().drop_first().drop_first()) == machine_steps(
        m4,
        bytes.drop_first().drop_first().drop_first().drop_first(),
    ));
    assert(machine_steps(m4, bytes.drop_first().drop_first().drop_first().drop_first())
        == machine_steps(
        m5,
        bytes.drop_first().drop_first().drop_first().drop_first().drop_first(),
    ));
    assert(machine_steps(m5, bytes.drop_first().drop_first().drop_first().drop_first().drop_first())
        == machine_steps(m6, Seq::<u8>::empty()));
    assert(machine_steps(m6, Seq::<u8>::empty()) == m6);
    assert(machine_steps(m, bytes) == m6);
    assert(m1 == (Machine { mode: Mode::Esc, buf: seq![0x1bu8], ..m }));
    assert(m2 == (Machine { mode: Mode::CsiEntry, buf: seq![0x1bu8].push(91u8), ..m }));
    assert(m3 == (Machine {
        mode: Mode::MouseX10 { count: 0 },
        buf: seq![0x1bu8].push(91u8).push(77u8),
        ..m
    }));
    let buf6 = seq![0x1bu8].push(91u8).push(77u8).push(code8).push(colb).push(rowb);
    assert(buf6.len() == 6);
    assert(m6.mode is Ground);
    assert(m6.buf =~= Seq::<u8>::empty());
    assert(m6.paste == m.paste);
    let code = buf6[3].wrapping_sub(32);
    let col = buf6[4].wrapping_sub(33) as u16;
    let row = buf6[5].wrapping_sub(33) as u16;
    assert(m6.events == m.events.push(EventModel::Mouse(decode_x10_spec(code, col, row))));
    assert(crate::input::event::x10_code(e) + 32 < 256);
    assert(code8 == crate::input::event::x10_code(e) + 32);
    assert(code == crate::input::event::x10_code(e));
    assert(colb == crate::input::event::position_spec(e).0 + 33);
    assert(rowb == crate::input::event::position_spec(e).1 + 33);
    assert(col == crate::input::event::position_spec(e).0);
    assert(row == crate::input::event::position_spec(e).1);
    assert((0u8 & 0x03u8) == 0 && (1u8 & 0x03u8) == 1 && (2u8 & 0x03u8) == 2 && (3u8 & 0x03u8)
        == 3 && (32u8 & 0x03u8) == 0 && (33u8 & 0x03u8) == 1 && (34u8 & 0x03u8) == 2 && (35u8
        & 0x03u8) == 3 && (64u8 & 0x03u8) == 0 && (65u8 & 0x03u8) == 1) by (bit_vector);
    assert((0u8 & 64u8) == 0 && (1u8 & 64u8) == 0 && (2u8 & 64u8) == 0 && (3u8 & 64u8) == 0
        && (32u8 & 64u8) == 0 && (33u8 & 64u8) == 0 && (34u8 & 64u8) == 0 && (35u8 & 64u8) == 0
        && (64u8 & 64u8) == 64 && (65u8 & 64u8) == 64) by (bit_vector);
    assert((0u8 & 32u8) == 0 && (1u8 & 32u8) == 0 && (2u8 & 32u8) == 0 && (3u8 & 32u8) == 0
        && (32u8 & 32u8) == 32 && (33u8 & 32u8) == 32 && (34u8 & 32u8) == 32 && (35u8 & 32u8)
        == 32 && (64u8 & 32u8) == 0 && (65u8 & 32u8) == 0) by (bit_vector);
    assert(decode_x10_spec(code, col, row) == e);
    assert(machine_steps(m, bytes) == (Machine {
        mode: Mode::Ground,
        buf: Seq::empty(),
        paste: m.paste,
        events: m.events.push(EventModel::Mouse(e)),
    }));
}

} // verus!
