use jtx::buffer::Buffer;
use jtx::config::{Colour, Config, ConfigMisc, ConfigTextAttr, ConfigUi};
use jtx::editor::{Editor, EditorStep};
use jtx::file::File;
use jtx::terminal::{InputError, InputEvent, Key, Terminal};

fn attr(fg: &[u8], bg: &[u8]) -> ConfigTextAttr {
    ConfigTextAttr { fg: fg.to_vec(), bg: bg.to_vec(), bold: false }
}

fn test_config() -> Config {
    Config {
        misc: ConfigMisc { tab_size: 4 },
        palette: vec![
            (b"ink".to_vec(), Colour { red: 0, green: 0, blue: 0 }),
            (b"paper".to_vec(), Colour { red: 250, green: 250, blue: 250 }),
        ],
        ui: ConfigUi {
            default: attr(b"ink", b"paper"),
            header: attr(b"paper", b"ink"),
            status: attr(b"paper", b"ink"),
            line_nums: attr(b"ink", b"paper"),
        },
    }
}

fn test_editor(texts: &[&[u8]]) -> Editor {
    let files: Vec<File> = texts
        .iter()
        .map(|t| {
            let blob = std::rc::Rc::new(t.to_vec());
            File::new(b"f".to_vec(), Buffer::from_blob(&blob), false)
        })
        .collect();
    Editor::new(files, test_config(), Terminal::new()).unwrap()
}

#[test]
fn typing_reaches_the_active_file() {
    let mut e = test_editor(&[b""]);
    let s = e.handle_event(InputEvent::Key(Key::Char('h')));
    assert!(matches!(s, EditorStep::Continue));
    e.handle_event(InputEvent::Key(Key::Char('i')));
    assert_eq!(e.active_file().buffer().line(), b"hi");
}

#[test]
fn quit_on_alt_x() {
    let mut e = test_editor(&[b"x"]);
    let s = e.handle_event(InputEvent::AltKey(Key::Char('x')));
    assert!(matches!(s, EditorStep::Quit));
    assert_eq!(e.active_file().buffer().line(), b"x");
}

#[test]
fn save_hands_out_name_and_bytes() {
    let mut e = test_editor(&[b"abc\ndef"]);
    e.handle_event(InputEvent::Key(Key::Char('x')));
    e.handle_event(InputEvent::Key(Key::Backspace));
    assert!(e.active_file().dirty());
    let s = e.handle_event(InputEvent::CtrlKey(Key::Char('s')));
    match s {
        EditorStep::Save(name, data) => {
            assert_eq!(name, b"f".to_vec());
            assert_eq!(data, b"abc\ndef".to_vec());
        }
        _ => panic!("expected a save step"),
    }
    // until the write is confirmed the file stays dirty
    assert!(e.active_file().dirty());
    e.confirm_saved();
    assert!(!e.active_file().dirty());
}

#[test]
fn failed_save_leaves_the_file_dirty() {
    let mut e = test_editor(&[b"abc"]);
    e.handle_event(InputEvent::Key(Key::Char('y')));
    assert!(e.active_file().dirty());
    let s = e.handle_event(InputEvent::CtrlKey(Key::Char('s')));
    assert!(matches!(s, EditorStep::Save(_, _)));
    // the write failed: the editor is told, shows a message, stays dirty
    e.report_save_error();
    assert!(e.error.is_some());
    assert!(e.active_file().dirty());
}

#[test]
fn file_switching_wraps() {
    let mut e = test_editor(&[b"one", b"two", b"three"]);
    e.handle_event(InputEvent::AltKey(Key::Left));
    assert_eq!(e.file_idx, 2);
    e.handle_event(InputEvent::AltKey(Key::Right));
    assert_eq!(e.file_idx, 0);
    e.handle_event(InputEvent::AltKey(Key::Right));
    assert_eq!(e.file_idx, 1);
}

#[test]
fn consecutive_kills_accumulate_in_one_buffer() {
    let mut e = test_editor(&[b"foo\nbar\nbaz"]);
    e.handle_event(InputEvent::CtrlKey(Key::Char('k')));
    e.handle_event(InputEvent::CtrlKey(Key::Char('k')));
    assert_eq!(e.kill_buf, b"foo\nbar\n".to_vec());
    // a different event in between resets the buffer on the next kill
    e.handle_event(InputEvent::Key(Key::Down));
    e.handle_event(InputEvent::CtrlKey(Key::Char('k')));
    assert_eq!(e.kill_buf, b"baz".to_vec());
}

#[test]
fn text_size_report_updates_dimensions() {
    let mut e = test_editor(&[b""]);
    e.handle_event(InputEvent::TextSize { rows: 40, cols: 120 });
    assert_eq!(e.term_rows, 40);
    assert_eq!(e.term_cols, 120);
    // too small a report is held at the smallest usable height
    e.handle_event(InputEvent::TextSize { rows: 1, cols: 10 });
    assert_eq!(e.term_rows, 5);
}

#[test]
fn parse_error_is_surfaced_and_editing_goes_on() {
    let mut e = test_editor(&[b""]);
    e.report_input_error(InputError::InvalidCsi(b'X'));
    assert!(e.error.is_some());
    e.draw();
    let out = e.term.take_output();
    assert!(!out.is_empty());
    // the editor still dispatches events afterwards
    e.handle_event(InputEvent::Key(Key::Char('a')));
    assert_eq!(e.active_file().buffer().line(), b"a");
    assert!(e.error.is_none());
}

#[test]
fn undo_redo_via_dispatch() {
    let mut e = test_editor(&[b""]);
    e.handle_event(InputEvent::Key(Key::Char('a')));
    e.handle_event(InputEvent::AltKey(Key::Char('u')));
    assert_eq!(e.active_file().buffer().line(), b"");
    e.handle_event(InputEvent::AltKey(Key::Char('e')));
    assert_eq!(e.active_file().buffer().line(), b"a");
}

#[test]
fn draw_emits_line_numbers_and_cursor_move() {
    let mut e = test_editor(&[b"hello\nworld"]);
    e.draw();
    let out = e.term.take_output();
    let text = out.clone();
    // the first file row shows line number 1, then the text
    let needle: &[u8] = b"1 ";
    assert!(text.windows(needle.len()).any(|w| w == needle));
    let hello: &[u8] = b"hello";
    assert!(text.windows(hello.len()).any(|w| w == hello));
    // the final cursor move puts the cursor after the number column:
    // row 3, column 3 (one-based) for a one-digit number column
    let tail: &[u8] = b"\x1b[3;3H";
    assert!(text.ends_with(tail));
}

#[test]
fn unknown_event_leaves_a_message() {
    let mut e = test_editor(&[b""]);
    e.handle_event(InputEvent::ShiftKey(Key::F7));
    assert!(e.error.is_some());
}
