use jtx::config::{Colour, ConfigTextAttr};
use jtx::terminal::{
    parse_event, InputError, InputEvent, Key, ParseResult, Terminal, TextAttr,
};

#[test]
fn printable_and_control_bytes() {
    assert_eq!(
        parse_event(b"A"),
        ParseResult::Event(InputEvent::Key(Key::Char('A')), 1)
    );
    assert_eq!(
        parse_event(&[0x01]),
        ParseResult::Event(InputEvent::CtrlKey(Key::Char('a')), 1)
    );
    assert_eq!(
        parse_event(&[0x0b, b'x']),
        ParseResult::Event(InputEvent::CtrlKey(Key::Char('k')), 1)
    );
    assert_eq!(
        parse_event(&[0x7f]),
        ParseResult::Event(InputEvent::Key(Key::Backspace), 1)
    );
    assert_eq!(parse_event(b""), ParseResult::NeedMore);
}

#[test]
fn csi_modified_arrow() {
    // ESC [ 1 ; 5 A is a control-modified up arrow
    assert_eq!(
        parse_event(&[0x1b, b'[', b'1', b';', b'5', b'A']),
        ParseResult::Event(InputEvent::CtrlKey(Key::Up), 6)
    );
    assert_eq!(
        parse_event(&[0x1b, b'[', b'A']),
        ParseResult::Event(InputEvent::Key(Key::Up), 3)
    );
}

#[test]
fn csi_text_size_report() {
    assert_eq!(
        parse_event(&[0x1b, b'[', b'8', b';', b'2', b'4', b';', b'8', b'0', b't']),
        ParseResult::Event(
            InputEvent::TextSize { rows: 24, cols: 80 },
            10
        )
    );
}

#[test]
fn csi_unknown_combination_is_an_error() {
    assert_eq!(
        parse_event(&[0x1b, b'[', b'9', b'9', b'X']),
        ParseResult::Error(InputError::InvalidCsi(b'X'), 5)
    );
}

#[test]
fn csi_partial_needs_more() {
    assert_eq!(parse_event(&[0x1b]), ParseResult::NeedMore);
    assert_eq!(parse_event(&[0x1b, b'[']), ParseResult::NeedMore);
    assert_eq!(parse_event(&[0x1b, b'[', b'1', b';']), ParseResult::NeedMore);
}

#[test]
fn alt_and_ctrl_alt_keys() {
    assert_eq!(
        parse_event(&[0x1b, b'u']),
        ParseResult::Event(InputEvent::AltKey(Key::Char('u')), 2)
    );
    assert_eq!(
        parse_event(&[0x1b, 0x05]),
        ParseResult::Event(InputEvent::CtrlAltKey(Key::Char('e')), 2)
    );
    assert_eq!(
        parse_event(&[0x1b, 0x00]),
        ParseResult::Error(InputError::InvalidEsc(0x00), 2)
    );
}

#[test]
fn utf8_input_decoding() {
    // C3 A9 is a two-byte character
    assert_eq!(
        parse_event(&[0xc3, 0xa9]),
        ParseResult::Event(InputEvent::Key(Key::Char('\u{e9}')), 2)
    );
    assert_eq!(parse_event(&[0xc3]), ParseResult::NeedMore);
    assert_eq!(
        parse_event(&[0xc3, 0x28]),
        ParseResult::Error(InputError::InvalidUtf8(0x28), 2)
    );
    // E2 82 AC is a three-byte character
    assert_eq!(
        parse_event(&[0xe2, 0x82, 0xac]),
        ParseResult::Event(InputEvent::Key(Key::Char('\u{20ac}')), 3)
    );
    // ED A0 80 encodes a surrogate, which is not a character
    assert_eq!(
        parse_event(&[0xed, 0xa0, 0x80]),
        ParseResult::Error(InputError::InvalidUtf8(0xed), 3)
    );
    assert_eq!(
        parse_event(&[0x90]),
        ParseResult::Error(InputError::InvalidByte(0x90), 1)
    );
}

#[test]
fn function_key_table_entries() {
    assert_eq!(
        parse_event(&[0x1b, b'[', b'1', b'5', b'~']),
        ParseResult::Event(InputEvent::Key(Key::F5), 5)
    );
    assert_eq!(
        parse_event(&[0x1b, b'[', b'2', b'4', b';', b'6', b'~']),
        ParseResult::Event(InputEvent::CtrlShiftKey(Key::F12), 7)
    );
    assert_eq!(
        parse_event(&[0x1b, b'[', b'Z']),
        ParseResult::Event(InputEvent::CtrlShiftKey(Key::Tab), 3)
    );
    assert_eq!(
        parse_event(&[0x1b, b'[', b'3', b';', b'5', b'~']),
        ParseResult::Event(InputEvent::CtrlKey(Key::Delete), 6)
    );
}

#[test]
fn output_escape_sequences() {
    let mut t = Terminal::new();
    t.move_to(0, 0);
    let out = t.take_output();
    assert_eq!(out, b"\x1b[1;1H".to_vec());
    t.clear_to_end();
    assert_eq!(t.take_output(), b"\x1b[K".to_vec());
    t.move_to(23, 79);
    assert_eq!(t.take_output(), b"\x1b[24;80H".to_vec());
    t.write(b"hi");
    t.request_size();
    assert_eq!(t.take_output(), b"hi\x1b[18t".to_vec());
}

#[test]
fn text_attr_escape_sequence() {
    let mut t = Terminal::new();
    let a = TextAttr {
        fg: Colour { red: 1, green: 2, blue: 3 },
        bg: Colour { red: 10, green: 20, blue: 30 },
        bold: true,
        underline: false,
        italic: false,
    };
    t.text_attr(a);
    assert_eq!(
        t.take_output(),
        b"\x1b[0m\x1b[1m\x1b[48;2;10;20;30m\x1b[38;2;1;2;3m".to_vec()
    );
}

#[test]
fn colour_parsing() {
    assert_eq!(
        Colour::parse(b"#aAbBcC"),
        Some(Colour { red: 0xaa, green: 0xbb, blue: 0xcc })
    );
    assert_eq!(
        Colour::parse(b"#000000"),
        Some(Colour { red: 0, green: 0, blue: 0 })
    );
    assert_eq!(Colour::parse(b"aabbcc"), None);
    assert_eq!(Colour::parse(b"#aabbc"), None);
    assert_eq!(Colour::parse(b"#aabbcg"), None);
    assert_eq!(Colour::parse(b"#aabbcc "), None);
}

#[test]
fn palette_lookup_and_attr_build() {
    let palette: Vec<(Vec<u8>, Colour)> = vec![
        (b"ink".to_vec(), Colour { red: 0, green: 0, blue: 0 }),
        (b"paper".to_vec(), Colour { red: 255, green: 255, blue: 255 }),
    ];
    let src = ConfigTextAttr { fg: b"ink".to_vec(), bg: b"paper".to_vec(), bold: false };
    let built = TextAttr::build(&palette, &src).unwrap();
    assert_eq!(built.fg, Colour { red: 0, green: 0, blue: 0 });
    assert_eq!(built.bg, Colour { red: 255, green: 255, blue: 255 });
    assert!(!built.bold);
    let missing = ConfigTextAttr { fg: b"nope".to_vec(), bg: b"paper".to_vec(), bold: true };
    assert_eq!(TextAttr::build(&palette, &missing), Err(b"nope".to_vec()));
}
