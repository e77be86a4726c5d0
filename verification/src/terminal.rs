//! The terminal: raw-mode lifecycle state, buffered escape-sequence
//! output, and the byte-stream decoder that turns input bytes into typed
//! events.

use vstd::prelude::*;
use crate::config::Colour;
use crate::digits::{dec_digits, push_dec};

verus! {

/// The saved terminal attributes, held opaquely.
#[verifier::external_type_specification]
#[verifier::external_body]
pub struct ExTermios(termios::Termios);

/// Relies on `termios::cfmakeraw`: it only computes the raw-mode variant
/// of the given attributes in memory, touching no device.
#[verifier::external_body]
fn make_raw(t: &termios::Termios) -> (r: termios::Termios) {
    let mut raw = *t;
    termios::cfmakeraw(&mut raw);
    raw
}

/// A key, either a printable character or a named key.
#[derive(Clone, Copy, Debug, PartialEq, Eq)]
pub enum Key {
    Char(char),
    Tab,
    Insert,
    Delete,
    Backspace,
    Up,
    Down,
    Left,
    Right,
    PageUp,
    PageDown,
    Home,
    End,
    F1,
    F2,
    F3,
    F4,
    F5,
    F6,
    F7,
    F8,
    F9,
    F10,
    F11,
    F12,
}

/// One decoded input event: a key with its modifiers, or a size report.
#[derive(Clone, Copy, Debug, PartialEq, Eq)]
pub enum InputEvent {
    Key(Key),
    ShiftKey(Key),
    CtrlKey(Key),
    CtrlShiftKey(Key),
    CtrlAltKey(Key),
    AltKey(Key),
    AltShiftKey(Key),
    TextSize { rows: u32, cols: u32 },
    ScreenSize { rows: u32, cols: u32 },
}

/// Why a byte sequence failed to decode.
#[derive(Clone, Copy, Debug, PartialEq, Eq)]
pub enum InputError {
    InvalidCsi(u8),
    InvalidEsc(u8),
    InvalidUtf8(u8),
    InvalidByte(u8),
}

/// The outcome of decoding a byte prefix: a complete event and how many
/// bytes it took, a malformed sequence and how many bytes to discard, or
/// too few bytes so far.
#[derive(Clone, Copy, Debug, PartialEq, Eq)]
pub enum ParseResult {
    Event(InputEvent, usize),
    Error(InputError, usize),
    NeedMore,
}

/// Text styling for a screen region.
#[derive(Clone, Copy, Debug, PartialEq, Eq)]
pub struct TextAttr {
    pub fg: Colour,
    pub bg: Colour,
    pub bold: bool,
    pub underline: bool,
    pub italic: bool,
}

impl TextAttr {
    /// Resolves named foreground and background colours against the
    /// palette; a name the palette lacks comes back as the error.
    pub fn build(palette: &Vec<(Vec<u8>, Colour)>, src: &crate::config::ConfigTextAttr) -> (r:
        Result<TextAttr, Vec<u8>>)
        ensures
            match r {
                Ok(a) => {
                    &&& crate::config::lookup(palette@, src.fg@) == Some(a.fg)
                    &&& crate::config::lookup(palette@, src.bg@) == Some(a.bg)
                    &&& a.bold == src.bold
                    &&& !a.underline
                    &&& !a.italic
                },
                Err(name) => {
                    &&& crate::config::lookup(palette@, src.fg@) is None && name@ == src.fg@
                        || crate::config::lookup(palette@, src.fg@) is Some
                            && crate::config::lookup(palette@, src.bg@) is None && name@
                            == src.bg@
                },
            },
    {
        let fg = match crate::config::palette_get(palette, &src.fg) {
            Some(c) => c,
            None => {
                return Err(src.fg.clone());
            },
        };
        let bg = match crate::config::palette_get(palette, &src.bg) {
            Some(c) => c,
            None => {
                return Err(src.bg.clone());
            },
        };
        Ok(TextAttr { fg, bg, bold: src.bold, underline: false, italic: false })
    }
}

/// The escape sequence that moves the cursor to a zero-based row and
/// column.
pub open spec fn esc_move(row: int, col: int) -> Seq<u8> {
    seq![27u8, 91u8] + dec_digits(row + 1) + seq![59u8] + dec_digits(col + 1) + seq![72u8]
}

/// The escape sequence that clears from the cursor to the end of the line.
pub open spec fn esc_clear() -> Seq<u8> {
    seq![27u8, 91u8, 75u8]
}

/// One short style sequence: escape, bracket, one code byte, `m`.
pub open spec fn esc_sgr(code: u8) -> Seq<u8> {
    seq![27u8, 91u8, code, 109u8]
}

/// One true-colour sequence: `lead` selects foreground or background.
pub open spec fn esc_rgb(lead: u8, c: Colour) -> Seq<u8> {
    seq![27u8, 91u8, lead, 56u8, 59u8, 50u8, 59u8] + dec_digits(c.red as int) + seq![59u8]
        + dec_digits(c.green as int) + seq![59u8] + dec_digits(c.blue as int) + seq![109u8]
}

/// The escape sequences that reset attributes and then apply the given
/// style and true-colour background and foreground.
pub open spec fn esc_attr(a: TextAttr) -> Seq<u8> {
    esc_sgr(48u8) + (if a.bold {
        esc_sgr(49u8)
    } else {
        Seq::empty()
    }) + (if a.italic {
        esc_sgr(51u8)
    } else {
        Seq::empty()
    }) + (if a.underline {
        esc_sgr(52u8)
    } else {
        Seq::empty()
    }) + esc_rgb(52u8, a.bg) + esc_rgb(51u8, a.fg)
}

/// Appends one short style sequence.
fn push_sgr(buf: &mut Vec<u8>, code: u8)
    ensures
        final(buf)@ == old(buf)@ + esc_sgr(code),
{
    buf.push(27u8);
    buf.push(91u8);
    buf.push(code);
    buf.push(109u8);
    proof {
        assert(buf@ =~= old(buf)@ + esc_sgr(code));
    }
}

/// Appends one true-colour sequence.
fn push_rgb(buf: &mut Vec<u8>, lead: u8, c: Colour)
    ensures
        final(buf)@ == old(buf)@ + esc_rgb(lead, c),
{
    buf.push(27u8);
    buf.push(91u8);
    buf.push(lead);
    buf.push(56u8);
    buf.push(59u8);
    buf.push(50u8);
    buf.push(59u8);
    push_dec(buf, c.red as u128);
    buf.push(59u8);
    push_dec(buf, c.green as u128);
    buf.push(59u8);
    push_dec(buf, c.blue as u128);
    buf.push(109u8);
    proof {
        assert(buf@ =~= old(buf)@ + esc_rgb(lead, c));
    }
}

/// The escape sequence that enters the alternate screen.
pub open spec fn esc_alt_enter() -> Seq<u8> {
    seq![27u8, 91u8, 63u8, 49u8, 48u8, 52u8, 57u8, 104u8]
}

/// The escape sequence that leaves the alternate screen.
pub open spec fn esc_alt_leave() -> Seq<u8> {
    seq![27u8, 91u8, 63u8, 49u8, 48u8, 52u8, 57u8, 108u8]
}

/// The escape sequence that asks the terminal to report its text size.
pub open spec fn esc_size_report() -> Seq<u8> {
    seq![27u8, 91u8, 49u8, 56u8, 116u8]
}

/// A key event under the modifier a CSI parameter names.
pub open spec fn spec_mod_key(m: u32, k: Key) -> Option<InputEvent> {
    if m == 2 {
        Some(InputEvent::ShiftKey(k))
    } else if m == 3 {
        Some(InputEvent::AltKey(k))
    } else if m == 4 {
        Some(InputEvent::AltShiftKey(k))
    } else if m == 5 {
        Some(InputEvent::CtrlKey(k))
    } else if m == 6 {
        Some(InputEvent::CtrlShiftKey(k))
    } else {
        None
    }
}

/// The fixed table from CSI parameters and final byte to an event.
pub open spec fn spec_decode_csi(vals: Seq<u32>, by: u8) -> Option<InputEvent> {
    if by == 116u8 {
        // 't': size reports
        if vals.len() == 3 && vals[0] == 8 {
            Some(InputEvent::TextSize { rows: vals[1], cols: vals[2] })
        } else if vals.len() == 3 && vals[0] == 9 {
            Some(InputEvent::ScreenSize { rows: vals[1], cols: vals[2] })
        } else {
            None
        }
    } else if by == 65u8 || by == 66u8 || by == 67u8 || by == 68u8 {
        // arrows
        let k = if by == 65u8 {
            Key::Up
        } else if by == 66u8 {
            Key::Down
        } else if by == 67u8 {
            Key::Right
        } else {
            Key::Left
        };
        if vals.len() == 0 {
            Some(InputEvent::Key(k))
        } else if vals.len() == 2 && vals[0] == 1 {
            spec_mod_key(vals[1], k)
        } else {
            None
        }
    } else if by == 70u8 && vals.len() == 0 {
        Some(InputEvent::Key(Key::End))
    } else if by == 72u8 && vals.len() == 0 {
        Some(InputEvent::Key(Key::Home))
    } else if by == 80u8 || by == 81u8 || by == 82u8 || by == 83u8 {
        // 'P'..'S': F1 to F4, shifted or controlled
        let k = if by == 80u8 {
            Key::F1
        } else if by == 81u8 {
            Key::F2
        } else if by == 82u8 {
            Key::F3
        } else {
            Key::F4
        };
        if vals.len() == 2 && vals[0] == 1 && (vals[1] == 2 || vals[1] == 5 || vals[1] == 6) {
            spec_mod_key(vals[1], k)
        } else {
            None
        }
    } else if by == 90u8 && vals.len() == 0 {
        Some(InputEvent::CtrlShiftKey(Key::Tab))
    } else if by == 126u8 {
        // '~': editing and function keys
        if vals.len() == 1 {
            let n = vals[0];
            if n == 2 {
                Some(InputEvent::Key(Key::Insert))
            } else if n == 3 {
                Some(InputEvent::Key(Key::Delete))
            } else if n == 5 {
                Some(InputEvent::Key(Key::PageUp))
            } else if n == 6 {
                Some(InputEvent::Key(Key::PageDown))
            } else if n == 15 {
                Some(InputEvent::Key(Key::F5))
            } else if n == 17 {
                Some(InputEvent::Key(Key::F6))
            } else if n == 18 {
                Some(InputEvent::Key(Key::F7))
            } else if n == 19 {
                Some(InputEvent::Key(Key::F8))
            } else if n == 20 {
                Some(InputEvent::Key(Key::F9))
            } else if n == 24 {
                Some(InputEvent::Key(Key::F12))
            } else {
                None
            }
        } else if vals.len() == 2 {
            let n = vals[0];
            let m = vals[1];
            if n == 2 && m == 3 {
                Some(InputEvent::AltKey(Key::Insert))
            } else if n == 3 && (m == 2 || m == 3 || m == 5 || m == 6) {
                spec_mod_key(m, Key::Delete)
            } else if n == 15 && (m == 5 || m == 6) {
                spec_mod_key(m, Key::F5)
            } else if n == 17 && (m == 2 || m == 5 || m == 6) {
                spec_mod_key(m, Key::F6)
            } else if n == 18 && (m == 2 || m == 5 || m == 6) {
                spec_mod_key(m, Key::F7)
            } else if n == 19 && (m == 2 || m == 3 || m == 5 || m == 6) {
                spec_mod_key(m, Key::F8)
            } else if n == 20 && (m == 2 || m == 3 || m == 4 || m == 5 || m == 6) {
                spec_mod_key(m, Key::F9)
            } else if n == 21 && m == 5 {
                Some(InputEvent::CtrlKey(Key::F10))
            } else if n == 23 && m == 2 {
                Some(InputEvent::ShiftKey(Key::F11))
            } else if n == 24 && (m == 2 || m == 6) {
                spec_mod_key(m, Key::F12)
            } else {
                None
            }
        } else if vals.len() == 3 && vals[0] == 15 && vals[1] == 2 && vals[2] == 2 {
            Some(InputEvent::ShiftKey(Key::F5))
        } else {
            None
        }
    } else {
        None
    }
}

/// Shifts a result's consumed-byte count by `k`.
pub open spec fn bump(r: ParseResult, k: int) -> ParseResult {
    match r {
        ParseResult::Event(e, n) => ParseResult::Event(e, (n + k) as usize),
        ParseResult::Error(e, n) => ParseResult::Error(e, (n + k) as usize),
        ParseResult::NeedMore => ParseResult::NeedMore,
    }
}

/// Decodes a CSI body: decimal parameters separated by `;` (at most
/// three), ended by a final byte looked up in the table.
pub open spec fn spec_parse_csi(s: Seq<u8>, vals: Seq<u32>, cur: Option<u32>) -> ParseResult
    decreases s.len(),
{
    if s.len() == 0 {
        ParseResult::NeedMore
    } else {
        let b = s[0];
        if 48 <= b <= 57 {
            let d = (b - 48) as u32;
            let v: u32 = match cur {
                Option::None => 0u32,
                Option::Some(v) => v,
            };
            if v * 10 + d > u32::MAX {
                ParseResult::Error(InputError::InvalidCsi(b), 1)
            } else {
                bump(spec_parse_csi(s.skip(1), vals, Some((v * 10 + d) as u32)), 1)
            }
        } else if b == 59 {
            if vals.len() == 2 || cur is None {
                ParseResult::Error(InputError::InvalidCsi(b), 1)
            } else {
                bump(spec_parse_csi(s.skip(1), vals.push(cur->0), None), 1)
            }
        } else {
            let vals2 = match cur {
                Option::None => vals,
                Option::Some(v) => vals.push(v),
            };
            match spec_decode_csi(vals2, b) {
                Option::Some(e) => ParseResult::Event(e, 1),
                Option::None => ParseResult::Error(InputError::InvalidCsi(b), 1),
            }
        }
    }
}

/// Two count shifts add up when the total stays representable.
pub proof fn lemma_bump_bump(r: ParseResult, a: int, b: int)
    requires
        a >= 0,
        b >= 0,
        match r {
            ParseResult::Event(e, n) => n + a + b <= usize::MAX,
            ParseResult::Error(e, n) => n + a + b <= usize::MAX,
            ParseResult::NeedMore => true,
        },
    ensures
        bump(bump(r, a), b) == bump(r, a + b),
{
}

/// A CSI decode consumes at least one and at most all of its bytes.
pub proof fn lemma_csi_count(s: Seq<u8>, vals: Seq<u32>, cur: Option<u32>)
    requires
        s.len() <= usize::MAX,
    ensures
        match spec_parse_csi(s, vals, cur) {
            ParseResult::Event(e, n) => 1 <= n <= s.len(),
            ParseResult::Error(e, n) => 1 <= n <= s.len(),
            ParseResult::NeedMore => true,
        },
    decreases s.len(),
{
    if s.len() > 0 {
        let b = s[0];
        if 48 <= b <= 57 {
            let d = (b - 48) as u32;
            let v: u32 = match cur {
                Option::None => 0u32,
                Option::Some(v) => v,
            };
            if v * 10 + d <= u32::MAX {
                lemma_csi_count(s.skip(1), vals, Some((v * 10 + d) as u32));
            }
        } else if b == 59 {
            if !(vals.len() == 2 || cur is None) {
                lemma_csi_count(s.skip(1), vals.push(cur->0), None);
            }
        }
    }
}

/// Decodes what follows an escape byte.
pub open spec fn spec_parse_esc(s: Seq<u8>) -> ParseResult {
    if s.len() == 0 {
        ParseResult::NeedMore
    } else {
        let b = s[0];
        if 1 <= b <= 26 {
            ParseResult::Event(
                InputEvent::CtrlAltKey(Key::Char(((b + 96) as u8) as char)),
                1,
            )
        } else if b == 91 {
            bump(spec_parse_csi(s.skip(1), Seq::empty(), None), 1)
        } else if 32 <= b <= 126 {
            ParseResult::Event(InputEvent::AltKey(Key::Char(b as char)), 1)
        } else {
            ParseResult::Error(InputError::InvalidEsc(b), 1)
        }
    }
}

/// Decodes one event from the head of the byte stream: printable bytes
/// and control bytes directly, multi-byte UTF-8 characters, and escape
/// sequences; reports how many bytes a complete or malformed sequence
/// took, or that more bytes are needed.
pub open spec fn spec_parse(s: Seq<u8>) -> ParseResult {
    if s.len() == 0 {
        ParseResult::NeedMore
    } else {
        let b = s[0];
        if 32 <= b <= 126 {
            ParseResult::Event(InputEvent::Key(Key::Char(b as char)), 1)
        } else if 1 <= b <= 26 {
            ParseResult::Event(InputEvent::CtrlKey(Key::Char(((b + 96) as u8) as char)), 1)
        } else if b == 27 {
            bump(spec_parse_esc(s.skip(1)), 1)
        } else if b == 127 {
            ParseResult::Event(InputEvent::Key(Key::Backspace), 1)
        } else if 0xc0 <= b <= 0xdf {
            if s.len() < 2 {
                ParseResult::NeedMore
            } else {
                let b1 = s[1];
                if 0x80 <= b1 <= 0xbf {
                    ParseResult::Event(
                        InputEvent::Key(
                            Key::Char(vstd::utf8::codepoint_width_2(b, b1) as char),
                        ),
                        2,
                    )
                } else {
                    ParseResult::Error(InputError::InvalidUtf8(b1), 2)
                }
            }
        } else if 0xe0 <= b <= 0xef {
            if s.len() < 3 {
                ParseResult::NeedMore
            } else {
                let b1 = s[1];
                let b2 = s[2];
                if 0x80 <= b1 <= 0xbf && 0x80 <= b2 <= 0xbf {
                    let cp = vstd::utf8::codepoint_width_3(b, b1, b2);
                    if 0xd800 <= cp <= 0xdfff {
                        ParseResult::Error(InputError::InvalidUtf8(b), 3)
                    } else {
                        ParseResult::Event(InputEvent::Key(Key::Char(cp as char)), 3)
                    }
                } else {
                    ParseResult::Error(InputError::InvalidUtf8(if 0x80 <= b1 <= 0xbf {
                        b2
                    } else {
                        b1
                    }), 3)
                }
            }
        } else {
            ParseResult::Error(InputError::InvalidByte(b), 1)
        }
    }
}

/// A key event under the modifier a CSI parameter names.
fn mod_key(m: u32, k: Key) -> (r: Option<InputEvent>)
    ensures
        r == spec_mod_key(m, k),
{
    if m == 2 {
        Some(InputEvent::ShiftKey(k))
    } else if m == 3 {
        Some(InputEvent::AltKey(k))
    } else if m == 4 {
        Some(InputEvent::AltShiftKey(k))
    } else if m == 5 {
        Some(InputEvent::CtrlKey(k))
    } else if m == 6 {
        Some(InputEvent::CtrlShiftKey(k))
    } else {
        None
    }
}

/// Looks up CSI parameters and the final byte in the fixed key table.
pub fn decode_csi(vals: &Vec<u32>, by: u8) -> (r: Option<InputEvent>)
    ensures
        r == spec_decode_csi(vals@, by),
{
    let n = vals.len();
    if by == 116 {
        if n == 3 && vals[0] == 8 {
            Some(InputEvent::TextSize { rows: vals[1], cols: vals[2] })
        } else if n == 3 && vals[0] == 9 {
            Some(InputEvent::ScreenSize { rows: vals[1], cols: vals[2] })
        } else {
            None
        }
    } else if by == 65 || by == 66 || by == 67 || by == 68 {
        let k = if by == 65 {
            Key::Up
        } else if by == 66 {
            Key::Down
        } else if by == 67 {
            Key::Right
        } else {
            Key::Left
        };
        if n == 0 {
            Some(InputEvent::Key(k))
        } else if n == 2 && vals[0] == 1 {
            mod_key(vals[1], k)
        } else {
            None
        }
    } else if by == 70 && n == 0 {
        Some(InputEvent::Key(Key::End))
    } else if by == 72 && n == 0 {
        Some(InputEvent::Key(Key::Home))
    } else if by == 80 || by == 81 || by == 82 || by == 83 {
        let k = if by == 80 {
            Key::F1
        } else if by == 81 {
            Key::F2
        } else if by == 82 {
            Key::F3
        } else {
            Key::F4
        };
        if n == 2 && vals[0] == 1 && (vals[1] == 2 || vals[1] == 5 || vals[1] == 6) {
            mod_key(vals[1], k)
        } else {
            None
        }
    } else if by == 90 && n == 0 {
        Some(InputEvent::CtrlShiftKey(Key::Tab))
    } else if by == 126 {
        if n == 1 {
            let v = vals[0];
            if v == 2 {
                Some(InputEvent::Key(Key::Insert))
            } else if v == 3 {
                Some(InputEvent::Key(Key::Delete))
            } else if v == 5 {
                Some(InputEvent::Key(Key::PageUp))
            } else if v == 6 {
                Some(InputEvent::Key(Key::PageDown))
            } else if v == 15 {
                Some(InputEvent::Key(Key::F5))
            } else if v == 17 {
                Some(InputEvent::Key(Key::F6))
            } else if v == 18 {
                Some(InputEvent::Key(Key::F7))
            } else if v == 19 {
                Some(InputEvent::Key(Key::F8))
            } else if v == 20 {
                Some(InputEvent::Key(Key::F9))
            } else if v == 24 {
                Some(InputEvent::Key(Key::F12))
            } else {
                None
            }
        } else if n == 2 {
            let v = vals[0];
            let m = vals[1];
            if v == 2 && m == 3 {
                Some(InputEvent::AltKey(Key::Insert))
            } else if v == 3 && (m == 2 || m == 3 || m == 5 || m == 6) {
                mod_key(m, Key::Delete)
            } else if v == 15 && (m == 5 || m == 6) {
                mod_key(m, Key::F5)
            } else if v == 17 && (m == 2 || m == 5 || m == 6) {
                mod_key(m, Key::F6)
            } else if v == 18 && (m == 2 || m == 5 || m == 6) {
                mod_key(m, Key::F7)
            } else if v == 19 && (m == 2 || m == 3 || m == 5 || m == 6) {
                mod_key(m, Key::F8)
            } else if v == 20 && (m == 2 || m == 3 || m == 4 || m == 5 || m == 6) {
                mod_key(m, Key::F9)
            } else if v == 21 && m == 5 {
                Some(InputEvent::CtrlKey(Key::F10))
            } else if v == 23 && m == 2 {
                Some(InputEvent::ShiftKey(Key::F11))
            } else if v == 24 && (m == 2 || m == 6) {
                mod_key(m, Key::F12)
            } else {
                None
            }
        } else if n == 3 && vals[0] == 15 && vals[1] == 2 && vals[2] == 2 {
            Some(InputEvent::ShiftKey(Key::F5))
        } else {
            None
        }
    } else {
        None
    }
}

/// Decodes one event from the head of the bytes, per the grammar of
/// `spec_parse`.
#[verifier::rlimit(100)]
pub fn parse_event(bytes: &[u8]) -> (r: ParseResult)
    ensures
        r == spec_parse(bytes@),
{
    let n = bytes.len();
    if n == 0 {
        return ParseResult::NeedMore;
    }
    let b = bytes[0];
    if 32 <= b && b <= 126 {
        ParseResult::Event(InputEvent::Key(Key::Char(b as char)), 1)
    } else if 1 <= b && b <= 26 {
        ParseResult::Event(InputEvent::CtrlKey(Key::Char((b + 96) as char)), 1)
    } else if b == 27 {
        let ghost s1 = bytes@.skip(1);
        if n < 2 {
            return ParseResult::NeedMore;
        }
        let b1 = bytes[1];
        proof {
            assert(s1[0] == b1);
        }
        if 1 <= b1 && b1 <= 26 {
            ParseResult::Event(InputEvent::CtrlAltKey(Key::Char((b1 + 96) as char)), 2)
        } else if b1 == 91 {
            let ghost s2 = bytes@.skip(2);
            proof {
                assert(s1.skip(1) =~= s2);
            }
            let mut vals: Vec<u32> = Vec::new();
            let mut cur: u32 = 0;
            let mut has_cur: bool = false;
            let mut i: usize = 2;
            proof {
                lemma_csi_count(bytes@.skip(2), vals@, None);
                lemma_bump_bump(spec_parse_csi(bytes@.skip(2), vals@, None), 1, 1);
                assert(spec_parse(bytes@) == bump(
                    spec_parse_csi(bytes@.skip(2), vals@, None),
                    2,
                ));
            }
            while i < n
                invariant
                    n == bytes@.len(),
                    2 <= i <= n,
                    vals@.len() <= 2,
                    spec_parse(bytes@) == bump(
                        spec_parse_csi(
                            bytes@.skip(i as int),
                            vals@,
                            if has_cur {
                                Some(cur)
                            } else {
                                None
                            },
                        ),
                        i as int,
                    ),
                decreases n - i,
            {
                let b2 = bytes[i];
                let ghost si = bytes@.skip(i as int);
                proof {
                    assert(si[0] == b2);
                    assert(si.skip(1) =~= bytes@.skip(i + 1));
                }
                if 48 <= b2 && b2 <= 57 {
                    let d = (b2 - 48) as u32;
                    let v: u32 = if has_cur {
                        cur
                    } else {
                        0
                    };
                    if v > (u32::MAX - d) / 10 {
                        proof {
                            assert(v * 10 + d > u32::MAX) by (nonlinear_arith)
                                requires
                                    v > (u32::MAX - d) / 10 && d <= 9,
                            ;
                        }
                        return ParseResult::Error(InputError::InvalidCsi(b2), i + 1);
                    }
                    proof {
                        assert(v * 10 + d <= u32::MAX) by (nonlinear_arith)
                            requires
                                v <= (u32::MAX - d) / 10 && d <= 9,
                        ;
                    }
                    cur = v * 10 + d;
                    has_cur = true;
                } else if b2 == 59 {
                    if vals.len() == 2 || !has_cur {
                        return ParseResult::Error(InputError::InvalidCsi(b2), i + 1);
                    }
                    vals.push(cur);
                    has_cur = false;
                } else {
                    if has_cur {
                        vals.push(cur);
                    }
                    let ev = decode_csi(&vals, b2);
                    match ev {
                        Some(e) => {
                            return ParseResult::Event(e, i + 1);
                        },
                        None => {
                            return ParseResult::Error(InputError::InvalidCsi(b2), i + 1);
                        },
                    }
                }
                proof {
                    lemma_csi_count(
                        bytes@.skip(i + 1),
                        vals@,
                        if has_cur {
                            Some(cur)
                        } else {
                            None
                        },
                    );
                    lemma_bump_bump(
                        spec_parse_csi(
                            bytes@.skip(i + 1),
                            vals@,
                            if has_cur {
                                Some(cur)
                            } else {
                                None
                            },
                        ),
                        1,
                        i as int,
                    );
                }
                i = i + 1;
            }
            ParseResult::NeedMore
        } else if 32 <= b1 && b1 <= 126 {
            ParseResult::Event(InputEvent::AltKey(Key::Char(b1 as char)), 2)
        } else {
            ParseResult::Error(InputError::InvalidEsc(b1), 2)
        }
    } else if b == 127 {
        ParseResult::Event(InputEvent::Key(Key::Backspace), 1)
    } else if 0xc0 <= b && b <= 0xdf {
        if n < 2 {
            return ParseResult::NeedMore;
        }
        let b1 = bytes[1];
        if 0x80 <= b1 && b1 <= 0xbf {
            let cp = (((b & 0x1f) as u32) << 6u32) | ((b1 & 0x3f) as u32);
            proof {
                assert(cp == vstd::utf8::codepoint_width_2(b, b1)) by (bit_vector)
                    requires
                        cp == (((b & 0x1f) as u32) << 6u32) | ((b1 & 0x3f) as u32),
                ;
                assert(cp <= 0x7ff) by (bit_vector)
                    requires
                        cp == (((b & 0x1f) as u32) << 6u32) | ((b1 & 0x3f) as u32),
                ;
            }
            let c = char::from_u32(cp).unwrap();
            proof {
                vstd::utf8::char_u32_cast(c, cp);
            }
            ParseResult::Event(InputEvent::Key(Key::Char(c)), 2)
        } else {
            ParseResult::Error(InputError::InvalidUtf8(b1), 2)
        }
    } else if 0xe0 <= b && b <= 0xef {
        if n < 3 {
            return ParseResult::NeedMore;
        }
        let b1 = bytes[1];
        let b2 = bytes[2];
        if 0x80 <= b1 && b1 <= 0xbf && 0x80 <= b2 && b2 <= 0xbf {
            let cp = (((b & 0x0f) as u32) << 12u32) | (((b1 & 0x3f) as u32) << 6u32) | ((
            b2 & 0x3f) as u32);
            proof {
                assert(cp == vstd::utf8::codepoint_width_3(b, b1, b2) && cp <= 0xffff)
                    by (bit_vector)
                    requires
                        cp == (((b & 0x0f) as u32) << 12u32) | (((b1 & 0x3f) as u32)
                            << 6u32) | ((b2 & 0x3f) as u32),
                ;
            }
            if 0xd800 <= cp && cp <= 0xdfff {
                ParseResult::Error(InputError::InvalidUtf8(b), 3)
            } else {
                let c = char::from_u32(cp).unwrap();
                proof {
                    vstd::utf8::char_u32_cast(c, cp);
                }
                ParseResult::Event(InputEvent::Key(Key::Char(c)), 3)
            }
        } else {
            ParseResult::Error(InputError::InvalidUtf8(if 0x80 <= b1 && b1 <= 0xbf {
                b2
            } else {
                b1
            }), 3)
        }
    } else {
        ParseResult::Error(InputError::InvalidByte(b), 1)
    }
}

/// The terminal: the attributes saved while raw mode is active, and the
/// output not yet flushed.
pub struct Terminal {
    termios: Option<termios::Termios>,
    buf_out: Vec<u8>,
}

impl Terminal {
    /// The attributes captured when raw mode began, if it is active.
    pub closed spec fn saved(&self) -> Option<termios::Termios> {
        self.termios
    }

    /// The output bytes not yet handed over for flushing.
    pub closed spec fn out(&self) -> Seq<u8> {
        self.buf_out@
    }

    /// A terminal not yet in raw mode, with nothing buffered.
    pub fn new() -> (r: Terminal)
        ensures
            r.saved() is None,
            r.out() == Seq::<u8>::empty(),
    {
        Terminal { termios: None, buf_out: Vec::new() }
    }

    /// Begins raw mode: keeps the captured attributes for the matching
    /// `stop`, queues the alternate-screen entry, and returns the raw-mode
    /// attributes for the caller to install.
    pub fn start(&mut self, captured: termios::Termios) -> (raw: termios::Termios)
        requires
            old(self).saved() is None,
        ensures
            final(self).saved() == Some(captured),
            final(self).out() == old(self).out() + esc_alt_enter(),
    {
        let raw = make_raw(&captured);
        self.termios = Some(captured);
        self.buf_out.push(27u8);
        self.buf_out.push(91u8);
        self.buf_out.push(63u8);
        self.buf_out.push(49u8);
        self.buf_out.push(48u8);
        self.buf_out.push(52u8);
        self.buf_out.push(57u8);
        self.buf_out.push(104u8);
        proof {
            assert(self.buf_out@ =~= old(self).out() + esc_alt_enter());
        }
        raw
    }

    /// Ends raw mode: queues the alternate-screen exit and returns exactly
    /// the attributes that `start` captured, for the caller to restore.
    pub fn stop(&mut self) -> (r: termios::Termios)
        requires
            old(self).saved() is Some,
        ensures
            r == old(self).saved()->0,
            final(self).saved() is None,
            final(self).out() == old(self).out() + esc_alt_leave(),
    {
        self.buf_out.push(27u8);
        self.buf_out.push(91u8);
        self.buf_out.push(63u8);
        self.buf_out.push(49u8);
        self.buf_out.push(48u8);
        self.buf_out.push(52u8);
        self.buf_out.push(57u8);
        self.buf_out.push(108u8);
        let t = self.termios.take();
        proof {
            assert(self.buf_out@ =~= old(self).out() + esc_alt_leave());
        }
        match t {
            Some(t) => t,
            None => vstd::pervasive::unreached(),
        }
    }

    /// Whether raw mode is active.
    pub fn is_started(&self) -> (r: bool)
        ensures
            r == (self.saved() is Some),
    {
        self.termios.is_some()
    }

    /// Queues bytes for the next flush.
    pub fn write(&mut self, bytes: &[u8])
        ensures
            final(self).saved() == old(self).saved(),
            final(self).out() == old(self).out() + bytes@,
    {
        self.buf_out.extend_from_slice(bytes);
    }

    /// Queues the request for a text-size report.
    pub fn request_size(&mut self)
        ensures
            final(self).saved() == old(self).saved(),
            final(self).out() == old(self).out() + esc_size_report(),
    {
        self.buf_out.push(27u8);
        self.buf_out.push(91u8);
        self.buf_out.push(49u8);
        self.buf_out.push(56u8);
        self.buf_out.push(116u8);
        proof {
            assert(self.buf_out@ =~= old(self).out() + esc_size_report());
        }
    }

    /// Queues re-entry of the alternate screen.
    pub fn reenter_alt_screen(&mut self)
        ensures
            final(self).saved() == old(self).saved(),
            final(self).out() == old(self).out() + esc_alt_enter(),
    {
        self.buf_out.push(27u8);
        self.buf_out.push(91u8);
        self.buf_out.push(63u8);
        self.buf_out.push(49u8);
        self.buf_out.push(48u8);
        self.buf_out.push(52u8);
        self.buf_out.push(57u8);
        self.buf_out.push(104u8);
        proof {
            assert(self.buf_out@ =~= old(self).out() + esc_alt_enter());
        }
    }

    /// Queues a cursor move to the zero-based row and column.
    pub fn move_to(&mut self, row: usize, col: usize)
        ensures
            final(self).saved() == old(self).saved(),
            final(self).out() == old(self).out() + esc_move(row as int, col as int),
    {
        self.buf_out.push(27u8);
        self.buf_out.push(91u8);
        push_dec(&mut self.buf_out, row as u128 + 1);
        self.buf_out.push(59u8);
        push_dec(&mut self.buf_out, col as u128 + 1);
        self.buf_out.push(72u8);
        proof {
            assert(self.buf_out@ =~= old(self).out() + esc_move(row as int, col as int));
        }
    }

    /// Queues a clear from the cursor to the end of its line.
    pub fn clear_to_end(&mut self)
        ensures
            final(self).saved() == old(self).saved(),
            final(self).out() == old(self).out() + esc_clear(),
    {
        self.buf_out.push(27u8);
        self.buf_out.push(91u8);
        self.buf_out.push(75u8);
        proof {
            assert(self.buf_out@ =~= old(self).out() + esc_clear());
        }
    }

    /// Queues the reset-and-apply sequences for the given attributes.
    #[verifier::rlimit(100)]
    pub fn text_attr(&mut self, a: TextAttr)
        ensures
            final(self).saved() == old(self).saved(),
            final(self).out() == old(self).out() + esc_attr(a),
    {
        push_sgr(&mut self.buf_out, 48u8);
        if a.bold {
            push_sgr(&mut self.buf_out, 49u8);
        }
        if a.italic {
            push_sgr(&mut self.buf_out, 51u8);
        }
        if a.underline {
            push_sgr(&mut self.buf_out, 52u8);
        }
        push_rgb(&mut self.buf_out, 52u8, a.bg);
        push_rgb(&mut self.buf_out, 51u8, a.fg);
        proof {
            assert(self.buf_out@ =~= old(self).out() + esc_attr(a));
        }
    }

    /// Hands over everything queued, leaving the buffer empty; the caller
    /// flushes the returned bytes to the device.
    pub fn take_output(&mut self) -> (r: Vec<u8>)
        ensures
            final(self).saved() == old(self).saved(),
            r@ == old(self).out(),
            final(self).out() == Seq::<u8>::empty(),
    {
        let mut taken: Vec<u8> = Vec::new();
        core::mem::swap(&mut taken, &mut self.buf_out);
        taken
    }
}

} // verus!
