use std::rc::Rc;

use jtx::buffer::Buffer;
use jtx::file::File;

fn file_from(text: &[u8]) -> File {
    let blob = Rc::new(text.to_vec());
    File::new(b"test.txt".to_vec(), Buffer::from_blob(&blob), false)
}

fn text_of(f: &File) -> Vec<u8> {
    f.save()
}

#[test]
fn empty_file_load() {
    // a missing file opens as one empty line, marked dirty
    let f = File::new(b"/tmp/new.txt".to_vec(), Buffer::default(), true);
    assert!(f.dirty());
    assert_eq!(f.buffer().num_lines(), 1);
    assert_eq!(f.buffer().line(), b"");
    assert_eq!(f.status(), b"line 1/1  col 1/1".to_vec());
}

#[test]
fn utf8_typing_and_undo() {
    let mut f = File::new(b"a.txt".to_vec(), Buffer::default(), true);
    f.type_char('a');
    f.type_char('\u{e9}');
    f.type_char('b');
    assert_eq!(f.buffer().line(), "a\u{e9}b".as_bytes());
    assert_eq!(f.buffer().char_idx(), 4);
    f.undo();
    assert_eq!(f.buffer().line(), b"");
    assert_eq!(f.buffer().char_idx(), 0);
    f.redo();
    assert_eq!(f.buffer().line(), "a\u{e9}b".as_bytes());
    assert_eq!(f.buffer().char_idx(), 4);
}

#[test]
fn tab_column_accounting() {
    let mut f = file_from(b"\tab");
    assert_eq!(f.col_idx(), 0);
    f.right(1);
    assert_eq!(f.col_idx(), 4);
    f.right(1);
    assert_eq!(f.col_idx(), 5);
    f.right(1);
    assert_eq!(f.col_idx(), 6);
}

#[test]
fn kill_twice_then_unkill() {
    let mut f = file_from(b"foo\nbar\nbaz");
    let mut kill_buf: Vec<u8> = Vec::new();
    f.kill(&mut kill_buf);
    f.kill(&mut kill_buf);
    assert_eq!(kill_buf, b"foo\nbar\n".to_vec());
    assert_eq!(f.buffer().num_lines(), 1);
    assert_eq!(f.buffer().line(), b"baz");
    assert_eq!(f.buffer().line_idx(), 0);
    assert_eq!(f.buffer().char_idx(), 0);
    f.unkill(&kill_buf);
    assert_eq!(f.buffer().line_idx(), 2);
    assert_eq!(f.buffer().char_idx(), 0);
    assert_eq!(text_of(&f), b"foo\nbar\nbaz".to_vec());
}

#[test]
fn kill_last_line_leaves_empty_line() {
    let mut f = file_from(b"only");
    let mut kb: Vec<u8> = Vec::new();
    f.kill(&mut kb);
    assert_eq!(kb, b"only".to_vec());
    assert_eq!(f.buffer().num_lines(), 1);
    assert_eq!(f.buffer().line(), b"");
    f.unkill(&kb);
    assert_eq!(text_of(&f), b"only".to_vec());
}

#[test]
fn save_round_trip() {
    let mut f = file_from(b"abc\n\ndef");
    f.type_char('x');
    f.backspace();
    assert!(f.dirty());
    let bytes = f.save();
    assert_eq!(bytes, b"abc\n\ndef".to_vec());
    assert_eq!(bytes.len(), 8);
    // the bytes alone do not clean the file: only a confirmed write does
    assert!(f.dirty());
    f.mark_saved();
    assert!(!f.dirty());
    let blob = Rc::new(bytes);
    let b2 = Buffer::from_blob(&blob);
    assert_eq!(b2.num_lines(), 3);
    assert_eq!(b2.line_at(0), b"abc");
    assert_eq!(b2.line_at(1), b"");
    assert_eq!(b2.line_at(2), b"def");
}

#[test]
fn delete_coalesces_into_one_undo_step() {
    let mut f = file_from(b"abc");
    f.delete();
    f.delete();
    assert_eq!(f.buffer().line(), b"c");
    f.undo();
    assert_eq!(f.buffer().line(), b"abc");
}

#[test]
fn backspace_coalesces_and_restores() {
    let mut f = file_from(b"abc");
    f.end();
    f.backspace();
    f.backspace();
    assert_eq!(f.buffer().line(), b"a");
    f.undo();
    assert_eq!(f.buffer().line(), b"abc");
}

#[test]
fn newline_splits_and_joins() {
    let mut f = file_from(b"hello");
    f.right(2);
    f.type_char('\n');
    assert_eq!(f.buffer().num_lines(), 2);
    assert_eq!(f.buffer().line_idx(), 1);
    assert_eq!(f.buffer().char_idx(), 0);
    assert_eq!(text_of(&f), b"he\nllo".to_vec());
    f.backspace();
    assert_eq!(text_of(&f), b"hello".to_vec());
}

#[test]
fn auto_indent_copies_leading_blanks() {
    let mut f = file_from(b"  x");
    f.end();
    f.type_char('\n');
    // the new line starts with the previous line's two spaces
    assert_eq!(f.buffer().line(), b"  ");
    assert_eq!(f.buffer().char_idx(), 2);
    assert_eq!(text_of(&f), b"  x\n  ".to_vec());
}

#[test]
fn undo_takes_back_the_auto_indent_too() {
    let mut f = file_from(b"  x");
    f.end();
    f.type_char('\n');
    assert_eq!(text_of(&f), b"  x\n  ".to_vec());
    // one undo removes the newline and the indent it brought along
    f.undo();
    assert_eq!(text_of(&f), b"  x".to_vec());
    assert_eq!(f.buffer().line_idx(), 0);
    assert_eq!(f.buffer().char_idx(), 3);
}

#[test]
fn vertical_motion_keeps_target_column() {
    let mut f = file_from(b"long line here\nab\nlonger again");
    f.right(9);
    assert_eq!(f.col_idx(), 9);
    assert_eq!(f.saved_col_idx(), 9);
    f.down(1);
    // the second line is shorter: the cursor stops at its end
    assert_eq!(f.buffer().line_idx(), 1);
    assert_eq!(f.col_idx(), 2);
    assert_eq!(f.saved_col_idx(), 9);
    f.down(1);
    // the third line is long enough again: back to the target column
    assert_eq!(f.buffer().line_idx(), 2);
    assert_eq!(f.col_idx(), 9);
}

#[test]
fn undo_stack_runs_back_to_the_original() {
    let mut f = File::new(b"t".to_vec(), Buffer::default(), true);
    f.type_char('h');
    f.type_char('i');
    f.delete();
    f.backspace();
    while f.buffer().num_lines() > 1 || !f.buffer().line().is_empty() {
        f.undo();
    }
    assert_eq!(text_of(&f), b"".to_vec());
}

#[test]
fn undo_then_redo_restores_edits() {
    let mut f = file_from(b"one\ntwo");
    f.end();
    f.type_char('!');
    assert_eq!(text_of(&f), b"one!\ntwo".to_vec());
    f.undo();
    assert_eq!(text_of(&f), b"one\ntwo".to_vec());
    f.redo();
    assert_eq!(text_of(&f), b"one!\ntwo".to_vec());
}

#[test]
fn peeks_and_moves_cross_line_ends() {
    let blob = Rc::new(b"ab\ncd".to_vec());
    let mut b = Buffer::from_blob(&blob);
    assert_eq!(b.peek_left(), None);
    assert_eq!(b.peek_right(), Some('a'));
    b.move_right(2);
    assert_eq!(b.peek_right(), Some('\n'));
    b.move_right(1);
    assert_eq!(b.line_idx(), 1);
    assert_eq!(b.char_idx(), 0);
    assert_eq!(b.peek_left(), Some('\n'));
    b.move_right(10);
    assert_eq!(b.line_idx(), 1);
    assert_eq!(b.char_idx(), 2);
    b.move_left(3);
    assert_eq!(b.line_idx(), 0);
    assert_eq!(b.char_idx(), 2);
    b.move_left(10);
    assert_eq!(b.char_idx(), 0);
    assert_eq!(b.line_idx(), 0);
}

#[test]
fn cut_bytes_right_spans_lines() {
    let blob = Rc::new(b"ab\ncd".to_vec());
    let mut b = Buffer::from_blob(&blob);
    b.move_right(1);
    let cut = b.cut_bytes_right(3);
    assert_eq!(cut, b"b\nc".to_vec());
    assert_eq!(b.num_lines(), 1);
    assert_eq!(b.line(), b"ad");
}

#[test]
fn delete_char_right_returns_the_scalar() {
    let blob = Rc::new("x\u{e9}y".as_bytes().to_vec());
    let mut b = Buffer::from_blob(&blob);
    assert_eq!(b.delete_char_right(), Some('x'));
    assert_eq!(b.delete_char_right(), Some('\u{e9}'));
    assert_eq!(b.delete_char_right(), Some('y'));
    assert_eq!(b.delete_char_right(), None);
}

#[test]
fn status_counts_tab_width() {
    let mut f = file_from(b"\tab");
    f.right(2);
    // column 6 of 7: the tab spans four columns, then `a`
    assert_eq!(f.status(), b"line 1/1  col 6/7".to_vec());
}
