//! An open file: a buffer with its name, dirty flag, undo and redo stacks,
//! visual-column state, edit-coalescing activity, and viewport offset.

use vstd::prelude::*;
use vstd::utf8::{is_char_boundary, is_char_boundary_start_end_of_seq, valid_utf8};
use crate::action::{
    action_app, action_apply, action_char, action_inverts, action_line, action_pos, Action,
    coords_valid, lemma_coords_transfer, lemma_pos_boundary, pos_of, rewind,
};
use crate::buffer::Buffer;
use crate::col::{col_clamp, col_of, col_step, col_scan, scalar_class};
use crate::doctext::{line_start, split_text};
use crate::unicode::{bwd_n, char_bytes, fwd_n};

verus! {

/// What kind of edit happened last: consecutive edits of the same kind
/// merge into one undo step.
pub enum Activity {
    Idle,
    Typing,
    Deleting,
    Backspacing,
    Killing,
}

/// The state of one open file.
pub struct FileState {
    filename: Vec<u8>,
    buffer: Buffer,
    dirty: bool,
    col_idx: usize,
    saved_col_idx: usize,
    tab_size: usize,
    auto_indent: bool,
    undo: Vec<Action>,
    redo: Vec<Action>,
    activity: Activity,
    line_offset: usize,
}

/// An open file; edits, navigation and undo go through it.
pub struct File {
    pub state: FileState,
}

/// The blanks that automatic indent inserts after a typed newline: the
/// leading run of spaces and tabs of what precedes the cursor on its line.
pub open spec fn typed_indent(s: FileState, ch: char) -> Seq<u8> {
    if ch == '\n' && s.indent_on() {
        crate::col::leading_ws(s.cur_prefix())
    } else {
        Seq::empty()
    }
}

/// The settings no file operation changes: tab width, automatic indent,
/// and the file's name.
pub open spec fn same_config(a: FileState, b: FileState) -> bool {
    &&& b.tab() == a.tab()
    &&& b.indent_on() == a.indent_on()
    &&& b.fname() == a.fname()
}

/// The bytes one typed character adds to the document: its encoding,
/// then any automatic indent.
pub open spec fn typed_bytes(a: FileState, ch: char) -> Seq<u8> {
    char_bytes(ch) + typed_indent(a, ch)
}

/// Whether the running typing step can absorb `span` more bytes: the last
/// edit was typing and the top deletion's count stays representable.
pub open spec fn typing_absorbs(a: FileState, span: int) -> bool {
    &&& a.act() is Typing
    &&& a.undo_stack().len() > 0
    &&& match a.undo_stack().last() {
        Action::Delete { line_idx, char_idx, num_bytes } => num_bytes + span
            <= usize::MAX,
        Action::Insert { line_idx, char_idx, data } => false,
    }
}

/// The undo record typing leaves: the running typing step grown by the
/// typed span, or a new deletion of that span at the old cursor.
pub open spec fn typed_undo(a: FileState, b: FileState, span: int) -> bool {
    if typing_absorbs(a, span) {
        &&& b.undo_stack().len() == a.undo_stack().len()
        &&& b.undo_stack().drop_last() == a.undo_stack().drop_last()
        &&& b.undo_stack().last() == (match a.undo_stack().last() {
            Action::Delete { line_idx, char_idx, num_bytes } => Action::Delete {
                line_idx,
                char_idx,
                num_bytes: (num_bytes + span) as usize,
            },
            Action::Insert { line_idx, char_idx, data } => a.undo_stack().last(),
        })
        &&& b.redo_stack() == a.redo_stack()
    } else if span <= usize::MAX {
        b.undo_stack() == a.undo_stack().push(
            Action::Delete {
                line_idx: a.buf().cursor_line() as usize,
                char_idx: a.buf().cursor_char() as usize,
                num_bytes: span as usize,
            },
        )
    } else {
        true
    }
}

/// How typing one character changes the file: the typed bytes enter at
/// the cursor, the cursor passes them, the column follows, and the undo
/// stack records exactly the typed span.
pub open spec fn type_char_post(a: FileState, b: FileState, ch: char) -> bool {
    let span = typed_bytes(a, ch).len() as int;
    &&& same_config(a, b)
    &&& b.text() == a.text().take(a.buf().cur()) + typed_bytes(a, ch) + a.text().skip(
        a.buf().cur(),
    )
    &&& b.buf().cur() == a.buf().cur() + span
    &&& b.is_dirty()
    &&& b.act() == (if ch != '\n' {
        Activity::Typing
    } else {
        Activity::Idle
    })
    &&& b.redo_stack().len() == 0
    &&& b.undo_stack().len() > 0
    &&& b.col() == col_clamp(col_of(b.cur_prefix(), b.tab()))
    &&& b.saved() == b.col()
    &&& typed_undo(a, b, span)
    &&& action_app(b.text(), &b.undo_stack().last())
    &&& (span <= usize::MAX ==> rewind(b.text(), b.undo_stack()) == rewind(
        a.text(),
        a.undo_stack(),
    ))
}

/// How a forward deletion is recorded: appended to the running erasure
/// when one is open and no line end was crossed, else pushed as a new
/// insertion at the cursor.
pub open spec fn forward_delete_undo(
    a: FileState,
    b: FileState,
    removed: Seq<u8>,
    was_nl: bool,
) -> bool {
    if !was_nl && a.act() is Deleting {
        &&& b.undo_stack().len() == a.undo_stack().len()
        &&& b.undo_stack().drop_last() == a.undo_stack().drop_last()
        &&& match (a.undo_stack().last(), b.undo_stack().last()) {
            (
                Action::Insert { line_idx: l, char_idx: c, data: d },
                Action::Insert { line_idx: l2, char_idx: c2, data: d2 },
            ) => l2 == l && c2 == c && d2@ == d@ + removed,
            _ => false,
        }
    } else {
        &&& b.undo_stack().len() == a.undo_stack().len() + 1
        &&& b.undo_stack().drop_last() == a.undo_stack()
        &&& match b.undo_stack().last() {
            Action::Insert { line_idx, char_idx, data } => line_idx
                == b.buf().cursor_line() && char_idx == b.buf().cursor_char() && data@
                == removed,
            Action::Delete { line_idx, char_idx, num_bytes } => false,
        }
    }
}

/// How removing the character right of the cursor changes the file.
pub open spec fn delete_post(a: FileState, b: FileState) -> bool {
    let t = a.text();
    let cur = a.buf().cur();
    if cur == t.len() {
        unchanged_views(a, b) && same_config(a, b)
    } else {
        let k = vstd::utf8::length_of_first_scalar(t.skip(cur));
        let removed = t.subrange(cur, cur + k);
        &&& same_config(a, b)
        &&& b.text() == t.take(cur) + t.skip(cur + k)
        &&& b.buf().cursor_line() == a.buf().cursor_line()
        &&& b.buf().cursor_char() == a.buf().cursor_char()
        &&& b.buf().cur() == cur
        &&& b.col() == a.col()
        &&& b.saved() == a.saved()
        &&& b.is_dirty()
        &&& b.act() is Deleting
        &&& b.redo_stack().len() == 0
        &&& forward_delete_undo(a, b, removed, t[cur] == 10u8)
        &&& action_app(b.text(), &b.undo_stack().last())
        &&& rewind(b.text(), b.undo_stack()) == rewind(t, a.undo_stack())
    }
}

/// How a backward erasure is recorded: prepended to the running erasure,
/// whose position follows the cursor back, else pushed as a new insertion
/// at the new cursor.
pub open spec fn backward_delete_undo(
    a: FileState,
    b: FileState,
    removed: Seq<u8>,
    was_nl: bool,
) -> bool {
    if !was_nl && a.act() is Backspacing {
        &&& b.undo_stack().len() == a.undo_stack().len()
        &&& b.undo_stack().drop_last() == a.undo_stack().drop_last()
        &&& match (a.undo_stack().last(), b.undo_stack().last()) {
            (
                Action::Insert { line_idx: l, char_idx: c, data: d },
                Action::Insert { line_idx: l2, char_idx: c2, data: d2 },
            ) => l2 == l && c2 == b.buf().cursor_char() && d2@ == removed + d@,
            _ => false,
        }
    } else {
        &&& b.undo_stack().len() == a.undo_stack().len() + 1
        &&& b.undo_stack().drop_last() == a.undo_stack()
        &&& match b.undo_stack().last() {
            Action::Insert { line_idx, char_idx, data } => line_idx
                == b.buf().cursor_line() && char_idx == b.buf().cursor_char() && data@
                == removed,
            Action::Delete { line_idx, char_idx, num_bytes } => false,
        }
    }
}

/// How removing the character left of the cursor changes the file: the
/// cursor steps back over one character, which leaves the text.
pub open spec fn backspace_post(a: FileState, b: FileState) -> bool {
    let t = a.text();
    let cur = a.buf().cur();
    if cur == 0 {
        unchanged_views(a, b) && same_config(a, b)
    } else {
        let back = crate::unicode::prev_cur(t, cur);
        let removed = t.subrange(back, cur);
        &&& same_config(a, b)
        &&& b.buf().cur() == back
        &&& b.text() == t.take(back) + t.skip(cur)
        &&& b.col() == col_clamp(col_of(b.cur_prefix(), b.tab()))
        &&& b.saved() == b.col()
        &&& b.is_dirty()
        &&& b.act() is Backspacing
        &&& b.redo_stack().len() == 0
        &&& backward_delete_undo(a, b, removed, t[back] == 10u8)
        &&& action_app(b.text(), &b.undo_stack().last())
        &&& rewind(b.text(), b.undo_stack()) == rewind(t, a.undo_stack())
    }
}

/// What one kill cuts: the whole current line with its newline when a
/// line follows, else the bare last line.
pub open spec fn kill_cut(a: FileState) -> Seq<u8> {
    if a.buf().cursor_line() + 1 < a.buf().lines_view().len() {
        a.buf().cur_line() + seq![10u8]
    } else {
        a.buf().cur_line()
    }
}

/// How a kill is recorded: appended to the running kill step, else pushed
/// as a new insertion at the start of the cursor's line.
pub open spec fn kill_undo(a: FileState, b: FileState, cut: Seq<u8>) -> bool {
    if a.act() is Killing {
        &&& b.undo_stack().len() == a.undo_stack().len()
        &&& b.undo_stack().drop_last() == a.undo_stack().drop_last()
        &&& match (a.undo_stack().last(), b.undo_stack().last()) {
            (
                Action::Insert { line_idx: l, char_idx: c, data: d },
                Action::Insert { line_idx: l2, char_idx: c2, data: d2 },
            ) => l2 == l && c2 == c && d2@ == d@ + cut,
            _ => false,
        }
    } else {
        &&& b.undo_stack().len() == a.undo_stack().len() + 1
        &&& b.undo_stack().drop_last() == a.undo_stack()
        &&& match b.undo_stack().last() {
            Action::Insert { line_idx, char_idx, data } => line_idx
                == b.buf().cursor_line() && char_idx == 0 && data@ == cut,
            Action::Delete { line_idx, char_idx, num_bytes } => false,
        }
    }
}

/// How one kill changes the file and extends the kill buffer from `kb0`
/// to `kb1`: the current line leaves the document into the buffer.
pub open spec fn kill_post(a: FileState, b: FileState, kb0: Seq<u8>, kb1: Seq<u8>) -> bool {
    let cut = kill_cut(a);
    let l = a.buf().cursor_line();
    &&& same_config(a, b)
    &&& kb1 == kb0 + cut
    &&& b.buf().cursor_line() == l
    &&& b.buf().cursor_char() == 0
    &&& b.buf().cur() == a.buf().cur() - a.buf().cursor_char()
    &&& b.buf().lines_view() == (if l + 1 < a.buf().lines_view().len() {
        a.buf().lines_view().remove(l)
    } else {
        a.buf().lines_view().update(l, Seq::<u8>::empty())
    })
    &&& a.text() == b.text().take(b.buf().cur()) + cut + b.text().skip(b.buf().cur())
    &&& b.col() == 0
    &&& b.saved() == 0
    &&& b.is_dirty()
    &&& b.act() is Killing
    &&& b.redo_stack().len() == 0
    &&& kill_undo(a, b, cut)
    &&& action_app(b.text(), &b.undo_stack().last())
    &&& rewind(b.text(), b.undo_stack()) == rewind(a.text(), a.undo_stack())
}

/// How one yank changes the file: the kill buffer enters at the cursor,
/// recorded as one deletion of its length at the old cursor.
pub open spec fn unkill_post(a: FileState, b: FileState, kb: Seq<u8>) -> bool {
    &&& same_config(a, b)
    &&& b.text() == a.text().take(a.buf().cur()) + kb + a.text().skip(a.buf().cur())
    &&& b.buf().cur() == a.buf().cur() + kb.len()
    &&& b.col() == col_clamp(col_of(b.cur_prefix(), b.tab()))
    &&& b.saved() == b.col()
    &&& b.is_dirty() == a.is_dirty()
    &&& b.act() is Idle
    &&& b.redo_stack().len() == 0
    &&& b.undo_stack() == a.undo_stack().push(
        Action::Delete {
            line_idx: a.buf().cursor_line() as usize,
            char_idx: a.buf().cursor_char() as usize,
            num_bytes: kb.len() as usize,
        },
    )
    &&& action_app(b.text(), &b.undo_stack().last())
    &&& rewind(b.text(), b.undo_stack()) == rewind(a.text(), a.undo_stack())
}

/// Where vertical motion lands within its target line: the greatest
/// offset whose layout column does not pass the target column.
pub open spec fn vertical_landing(a: FileState, b: FileState) -> bool {
    &&& b.saved() == a.saved()
    &&& b.col() == col_of(b.cur_prefix(), b.tab())
    &&& b.col() <= a.saved()
    &&& (b.buf().cursor_char() == b.buf().cur_line().len() || col_step(
        b.col(),
        b.buf().cur_line()[b.buf().cursor_char()],
        b.tab(),
    ) > a.saved())
}

/// How moving up `num` lines changes the file.
pub open spec fn up_post(a: FileState, b: FileState, num: int) -> bool {
    &&& same_config(a, b)
    &&& b.buf().lines_view() == a.buf().lines_view()
    &&& b.buf().cursor_line() == (if num < a.buf().cursor_line() {
        a.buf().cursor_line() - num
    } else {
        0
    })
    &&& vertical_landing(a, b)
    &&& b.undo_stack() == a.undo_stack()
    &&& b.redo_stack() == a.redo_stack()
    &&& b.act() is Idle
    &&& b.is_dirty() == a.is_dirty()
}

/// How moving down `num` lines changes the file.
pub open spec fn down_post(a: FileState, b: FileState, num: int) -> bool {
    &&& same_config(a, b)
    &&& b.buf().lines_view() == a.buf().lines_view()
    &&& b.buf().cursor_line() == (if a.buf().cursor_line() + num
        < a.buf().lines_view().len() {
        a.buf().cursor_line() + num
    } else {
        a.buf().lines_view().len() - 1
    })
    &&& vertical_landing(a, b)
    &&& b.undo_stack() == a.undo_stack()
    &&& b.redo_stack() == a.redo_stack()
    &&& b.act() is Idle
    &&& b.is_dirty() == a.is_dirty()
}

/// How horizontal motion changes the file: the cursor steps by whole
/// characters and the column is recomputed from the new line prefix.
pub open spec fn horizontal_post(a: FileState, b: FileState, cur1: int) -> bool {
    &&& same_config(a, b)
    &&& b.buf().lines_view() == a.buf().lines_view()
    &&& b.buf().cur() == cur1
    &&& b.col() == col_clamp(col_of(b.cur_prefix(), b.tab()))
    &&& b.saved() == b.col()
    &&& b.undo_stack() == a.undo_stack()
    &&& b.redo_stack() == a.redo_stack()
    &&& b.act() is Idle
    &&& b.is_dirty() == a.is_dirty()
}

/// How moving to the line start changes the file.
pub open spec fn home_post(a: FileState, b: FileState) -> bool {
    &&& same_config(a, b)
    &&& b.buf().lines_view() == a.buf().lines_view()
    &&& b.buf().cursor_line() == a.buf().cursor_line()
    &&& b.buf().cursor_char() == 0
    &&& b.col() == 0
    &&& b.saved() == 0
    &&& b.undo_stack() == a.undo_stack()
    &&& b.redo_stack() == a.redo_stack()
    &&& b.act() is Idle
    &&& b.is_dirty() == a.is_dirty()
}

/// How moving to the line end changes the file.
pub open spec fn end_post(a: FileState, b: FileState) -> bool {
    &&& same_config(a, b)
    &&& b.buf().lines_view() == a.buf().lines_view()
    &&& b.buf().cursor_line() == a.buf().cursor_line()
    &&& b.buf().cursor_char() == b.buf().cur_line().len()
    &&& b.col() == col_clamp(col_of(b.buf().cur_line(), b.tab()))
    &&& b.saved() == b.col()
    &&& b.undo_stack() == a.undo_stack()
    &&& b.redo_stack() == a.redo_stack()
    &&& b.act() is Idle
    &&& b.is_dirty() == a.is_dirty()
}

/// How taking back one recorded step changes the file.
pub open spec fn undo_post(a: FileState, b: FileState) -> bool {
    &&& same_config(a, b)
    &&& b.act() is Idle
    &&& (a.undo_stack().len() == 0 ==> b.text() == a.text() && b.undo_stack()
        == a.undo_stack() && b.redo_stack() == a.redo_stack())
    &&& (a.undo_stack().len() > 0 ==> {
        let act = a.undo_stack().last();
        &&& b.undo_stack() == a.undo_stack().drop_last()
        &&& (action_app(a.text(), &act) ==> {
            &&& b.text() == action_apply(a.text(), &act)
            &&& b.is_dirty()
            &&& b.col() == col_clamp(col_of(b.cur_prefix(), b.tab()))
            &&& b.saved() == b.col()
            &&& (match act {
                Action::Delete { line_idx, char_idx, num_bytes } => b.buf().cursor_line()
                    == line_idx && b.buf().cursor_char() == char_idx,
                Action::Insert { line_idx, char_idx, data } => b.buf().cur() == action_pos(
                    a.text(),
                    &act,
                ) + data@.len(),
            })
            &&& b.redo_stack().len() == a.redo_stack().len() + 1
            &&& b.redo_stack().drop_last() == a.redo_stack()
            &&& action_inverts(a.text(), &act, &b.redo_stack().last())
            &&& action_app(b.text(), &b.redo_stack().last())
            &&& action_apply(b.text(), &b.redo_stack().last()) == a.text()
            &&& rewind(b.text(), b.undo_stack()) == rewind(a.text(), a.undo_stack())
            &&& rewind(b.text(), b.redo_stack()) == rewind(a.text(), a.redo_stack())
        })
        &&& (!action_app(a.text(), &act) ==> b.text() == a.text() && b.redo_stack()
            == a.redo_stack())
    })
}

/// How replaying one undone step changes the file.
pub open spec fn redo_post(a: FileState, b: FileState) -> bool {
    &&& same_config(a, b)
    &&& b.act() is Idle
    &&& (a.redo_stack().len() == 0 ==> b.text() == a.text() && b.undo_stack()
        == a.undo_stack() && b.redo_stack() == a.redo_stack())
    &&& (a.redo_stack().len() > 0 ==> {
        let act = a.redo_stack().last();
        &&& b.redo_stack() == a.redo_stack().drop_last()
        &&& (action_app(a.text(), &act) ==> {
            &&& b.text() == action_apply(a.text(), &act)
            &&& b.is_dirty()
            &&& b.col() == col_clamp(col_of(b.cur_prefix(), b.tab()))
            &&& b.saved() == b.col()
            &&& (match act {
                Action::Delete { line_idx, char_idx, num_bytes } => b.buf().cursor_line()
                    == line_idx && b.buf().cursor_char() == char_idx,
                Action::Insert { line_idx, char_idx, data } => b.buf().cur() == action_pos(
                    a.text(),
                    &act,
                ) + data@.len(),
            })
            &&& b.undo_stack().len() == a.undo_stack().len() + 1
            &&& b.undo_stack().drop_last() == a.undo_stack()
            &&& action_inverts(a.text(), &act, &b.undo_stack().last())
            &&& action_app(b.text(), &b.undo_stack().last())
            &&& action_apply(b.text(), &b.undo_stack().last()) == a.text()
            &&& rewind(b.text(), b.redo_stack()) == rewind(a.text(), a.redo_stack())
            &&& rewind(b.text(), b.undo_stack()) == rewind(a.text(), a.undo_stack())
        })
        &&& (!action_app(a.text(), &act) ==> b.text() == a.text() && b.undo_stack()
            == a.undo_stack())
    })
}

/// The two states show the same document, cursor, history and flags.
pub open spec fn unchanged_views(a: FileState, b: FileState) -> bool {
    &&& b.buf().lines_view() == a.buf().lines_view()
    &&& b.buf().cursor_line() == a.buf().cursor_line()
    &&& b.buf().cursor_char() == a.buf().cursor_char()
    &&& b.undo_stack() == a.undo_stack()
    &&& b.redo_stack() == a.redo_stack()
    &&& b.act() == a.act()
    &&& b.is_dirty() == a.is_dirty()
    &&& b.col() == a.col()
    &&& b.saved() == a.saved()
    &&& b.fname() == a.fname()
}

/// One drawn row: cursor to the row's start, then — when a document line
/// falls there — its one-based number right-aligned in the number column,
/// a space, and the line with tabs expanded, then a clear to the end.
pub open spec fn render_row(
    d: Seq<Seq<u8>>,
    li: int,
    row: int,
    w: int,
    tab: int,
    num_attr: crate::terminal::TextAttr,
    txt_attr: crate::terminal::TextAttr,
) -> Seq<u8> {
    crate::terminal::esc_move(row, 0) + (if 0 <= li < d.len() {
        crate::terminal::esc_attr(num_attr) + crate::col::spaces(
            w - crate::digits::dec_digits(li + 1).len(),
        ) + crate::digits::dec_digits(li + 1) + seq![32u8] + crate::terminal::esc_attr(
            txt_attr,
        ) + crate::col::expand_from(d[li], tab, 0)
    } else {
        Seq::empty()
    }) + crate::terminal::esc_clear()
}

/// The rows from `start` up to `upto`, showing the document from line
/// `off`.
pub open spec fn render_rows(
    d: Seq<Seq<u8>>,
    off: int,
    start: int,
    upto: int,
    w: int,
    tab: int,
    num_attr: crate::terminal::TextAttr,
    txt_attr: crate::terminal::TextAttr,
) -> Seq<u8>
    decreases upto - start,
{
    if upto <= start {
        Seq::empty()
    } else {
        render_rows(d, off, start, upto - 1, w, tab, num_attr, txt_attr) + render_row(
            d,
            off + (upto - 1 - start),
            upto - 1,
            w,
            tab,
            num_attr,
            txt_attr,
        )
    }
}

/// Killing a line and yanking it straight back restores the document:
/// one state comes from another by cutting bytes at the cursor exactly
/// when inserting those bytes there again gives the first state's text,
/// which is what `kill` guarantees about its cut and `unkill` then does.
pub proof fn lemma_kill_unkill_round_trip(
    before: FileState,
    killed: FileState,
    yanked: FileState,
    cut: Seq<u8>,
)
    requires
        // how `kill` leaves the document relative to what it cut
        before.text() == killed.text().take(killed.buf().cur()) + cut + killed.text().skip(
            killed.buf().cur(),
        ),
        // how `unkill` with exactly the cut bytes leaves it
        yanked.text() == killed.text().take(killed.buf().cur()) + cut + killed.text().skip(
            killed.buf().cur(),
        ),
    ensures
        yanked.text() == before.text(),
{
}

/// The status line text: `line L/N  col C/T`, all numbers one-based, `T`
/// the layout width of the whole current line plus one.
pub open spec fn status_text(s: FileState) -> Seq<u8> {
    seq![108u8, 105u8, 110u8, 101u8, 32u8] + crate::digits::dec_digits(s.buf().cursor_line() + 1)
        + seq![47u8] + crate::digits::dec_digits(s.buf().lines_view().len() as int)
        + seq![32u8, 32u8, 99u8, 111u8, 108u8, 32u8] + crate::digits::dec_digits(
        col_clamp(s.col() + 1),
    ) + seq![47u8] + crate::digits::dec_digits(
        col_clamp(col_clamp(col_of(s.buf().cur_line(), s.tab())) + 1),
    )
}

/// Every Insert action on a stack carries valid UTF-8.
pub open spec fn stack_data_ok(s: Seq<Action>) -> bool {
    forall|i: int|
        0 <= i < s.len() ==> match #[trigger] s[i] {
            Action::Insert { line_idx, char_idx, data } => valid_utf8(data@),
            Action::Delete { line_idx, char_idx, num_bytes } => true,
        }
}

impl FileState {
    /// The buffer.
    pub closed spec fn buf(&self) -> Buffer {
        self.buffer
    }

    /// The file name.
    pub closed spec fn fname(&self) -> Seq<u8> {
        self.filename@
    }

    /// Whether the file has unsaved changes.
    pub closed spec fn is_dirty(&self) -> bool {
        self.dirty
    }

    /// The visual column of the cursor.
    pub closed spec fn col(&self) -> int {
        self.col_idx as int
    }

    /// The visual column that vertical motion aims for.
    pub closed spec fn saved(&self) -> int {
        self.saved_col_idx as int
    }

    /// The width of a tab stop.
    pub closed spec fn tab(&self) -> int {
        self.tab_size as int
    }

    /// Whether a newline copies the previous line's leading blanks.
    pub closed spec fn indent_on(&self) -> bool {
        self.auto_indent
    }

    /// The undo stack.
    pub closed spec fn undo_stack(&self) -> Seq<Action> {
        self.undo@
    }

    /// The redo stack.
    pub closed spec fn redo_stack(&self) -> Seq<Action> {
        self.redo@
    }

    /// The kind of the last edit.
    pub closed spec fn act(&self) -> Activity {
        self.activity
    }

    /// The first line shown in the viewport.
    pub closed spec fn offset(&self) -> int {
        self.line_offset as int
    }

    /// The document as flat text.
    pub open spec fn text(&self) -> Seq<u8> {
        self.buf().text()
    }

    /// The cursor's line prefix, whose layout width is the visual column.
    pub open spec fn cur_prefix(&self) -> Seq<u8> {
        self.buf().cur_line().take(self.buf().cursor_char())
    }

    /// What the coalescing state says about the top of the undo stack.
    pub open spec fn act_inv(&self) -> bool {
        match self.act() {
            Activity::Idle => true,
            Activity::Typing => {
                &&& self.undo_stack().len() > 0
                &&& self.redo_stack().len() == 0
                &&& match self.undo_stack().last() {
                    Action::Delete { line_idx, char_idx, num_bytes } => {
                        &&& coords_valid(self.text(), line_idx as int, char_idx as int)
                        &&& pos_of(self.text(), line_idx as int, char_idx as int)
                            + num_bytes == self.buf().cur()
                    },
                    Action::Insert { line_idx, char_idx, data } => false,
                }
            },
            Activity::Deleting => self.top_insert_at(
                self.buf().cursor_line(),
                self.buf().cursor_char(),
            ),
            Activity::Backspacing => self.top_insert_at(
                self.buf().cursor_line(),
                self.buf().cursor_char(),
            ),
            Activity::Killing => self.buf().cursor_char() == 0 && self.top_insert_at(
                self.buf().cursor_line(),
                0,
            ),
        }
    }

    /// The top of the undo stack is an insertion at the given coordinates.
    pub open spec fn top_insert_at(&self, l: int, c: int) -> bool {
        &&& self.undo_stack().len() > 0
        &&& match self.undo_stack().last() {
            Action::Insert { line_idx, char_idx, data } => line_idx == l && char_idx == c,
            Action::Delete { line_idx, char_idx, num_bytes } => false,
        }
    }

    /// The file invariant: a well-formed buffer, a real tab width, the
    /// stored visual column in step with the cursor, undo data valid, and
    /// the coalescing state true of the undo stack.
    pub open spec fn inv(&self) -> bool {
        &&& self.buf().wf()
        &&& self.tab() >= 1
        &&& self.col() == col_clamp(col_of(self.cur_prefix(), self.tab()))
        &&& stack_data_ok(self.undo_stack())
        &&& stack_data_ok(self.redo_stack())
        &&& self.act_inv()
    }

    /// Recomputes the visual column from the cursor's line prefix and makes
    /// it the target column.
    fn fix_col_idx(&mut self)
        requires
            old(self).buf().wf(),
            old(self).tab() >= 1,
    ensures
            final(self).buf() == old(self).buf(),
            final(self).fname() == old(self).fname(),
            final(self).is_dirty() == old(self).is_dirty(),
            final(self).tab() == old(self).tab(),
            final(self).indent_on() == old(self).indent_on(),
            final(self).undo_stack() == old(self).undo_stack(),
            final(self).redo_stack() == old(self).redo_stack(),
            final(self).act() == old(self).act(),
            final(self).offset() == old(self).offset(),
            final(self).col() == col_clamp(col_of(final(self).cur_prefix(), final(self).tab())),
            final(self).saved() == final(self).col(),
    {
        proof {
            vstd::utf8::valid_utf8_split(
                self.buffer.cur_line(),
                self.buffer.cursor_char(),
            );
            assert(self.cur_prefix() == self.buffer.cur_line().subrange(
                0,
                self.buffer.cursor_char(),
            ));
        }
        let col = {
            let s = self.buffer.line_left();
            col_scan(s, self.tab_size)
        };
        self.col_idx = col;
        self.saved_col_idx = col;
    }

    /// Decides whether a recorded action still fits the document: its
    /// coordinates name a character boundary and, for a deletion, the span
    /// ends on one.
    fn check_action(&self, a: &Action) -> (r: bool)
        requires
            self.buf().wf(),
            match a {
                Action::Insert { line_idx, char_idx, data } => valid_utf8(data@),
                Action::Delete { line_idx, char_idx, num_bytes } => true,
            },
        ensures
            r == action_app(self.text(), a),
    {
        proof {
            self.buf().lemma_split_view();
            self.buf().lemma_text_facts();
        }
        let ghost d = self.buf().lines_view();
        let ghost t = self.text();
        let (l, c) = match a {
            Action::Insert { line_idx, char_idx, data } => (*line_idx, *char_idx),
            Action::Delete { line_idx, char_idx, num_bytes } => (*line_idx, *char_idx),
        };
        let n_lines = self.buffer.num_lines();
        if l >= n_lines {
            return false;
        }
        let line_len = {
            let s = self.buffer.line_at(l);
            s.len()
        };
        if c > line_len {
            return false;
        }
        let ok_boundary = if c == line_len {
            proof {
                is_char_boundary_start_end_of_seq(d[l as int]);
            }
            true
        } else {
            let s = self.buffer.line_at(l);
            let b = s[c];
            proof {
                vstd::utf8::is_char_boundary_iff_not_is_continuation_byte(
                    d[l as int],
                    c as int,
                );
            }
            b < 0x80 || b >= 0xc0
        };
        if !ok_boundary {
            return false;
        }
        match a {
            Action::Insert { line_idx, char_idx, data } => true,
            Action::Delete { line_idx, char_idx, num_bytes } => {
                let ghost pos = pos_of(t, l as int, c as int);
                let ghost n = *num_bytes as int;
                let mut rem: usize = *num_bytes;
                let mut wl: usize = l;
                let mut wc: usize = c;
                proof {
                    crate::doctext::lemma_join_parts(d, l as int);
                }
                loop
                    invariant
                        self.buf().wf(),
                        d == self.buf().lines_view(),
                        split_text(t) == d,
                        t == self.text(),
                        n_lines == d.len(),
                        pos == pos_of(t, l as int, c as int),
                        coords_valid(t, l as int, c as int),
                        match a {
                            Action::Delete { line_idx, char_idx, num_bytes } => line_idx == l
                                && char_idx == c && num_bytes == n,
                            Action::Insert { line_idx, char_idx, data } => false,
                        },
                        n >= 0,
                        (wl as int) < d.len(),
                        wc <= d[wl as int].len(),
                        line_start(d, wl as int) + wc + rem == pos + n,
                    decreases d.len() - wl,
                {
                    let llen = {
                        let s = self.buffer.line_at(wl);
                        s.len()
                    };
                    if rem <= llen - wc {
                        let at = wc + rem;
                        proof {
                            crate::doctext::lemma_line_boundary(d, wl as int, at as int);
                            crate::doctext::lemma_join_parts(d, wl as int);
                            crate::doctext::lemma_join_end(d);
                            assert(pos + n <= t.len());
                        }
                        if at == llen {
                            proof {
                                is_char_boundary_start_end_of_seq(d[wl as int]);
                            }
                            return true;
                        }
                        let s = self.buffer.line_at(wl);
                        let b = s[at];
                        proof {
                            vstd::utf8::is_char_boundary_iff_not_is_continuation_byte(
                                d[wl as int],
                                at as int,
                            );
                        }
                        return b < 0x80 || b >= 0xc0;
                    }
                    if wl + 1 >= n_lines {
                        proof {
                            crate::doctext::lemma_join_end(d);
                            assert(line_start(d, wl as int) + d[wl as int].len() == t.len());
                            assert(pos + n > t.len());
                        }
                        return false;
                    }
                    rem = rem - (llen - wc) - 1;
                    wl = wl + 1;
                    wc = 0;
                    proof {
                        assert(line_start(d, wl as int) == line_start(d, wl - 1)
                            + d[wl - 1].len() + 1);
                    }
                }
            },
        }
    }

    /// Applies one recorded action: moves to its position, makes its edit,
    /// refreshes the column, and returns the action that reverses it.
    #[verifier::rlimit(50)]
    fn perform(&mut self, action: Action) -> (r: Action)
        requires
            old(self).buf().wf(),
            old(self).tab() >= 1,
            action_app(old(self).text(), &action),
        ensures
            final(self).buf().wf(),
            final(self).tab() == old(self).tab(),
            final(self).fname() == old(self).fname(),
            final(self).indent_on() == old(self).indent_on(),
            final(self).undo_stack() == old(self).undo_stack(),
            final(self).redo_stack() == old(self).redo_stack(),
            final(self).act() == old(self).act(),
            final(self).offset() == old(self).offset(),
            final(self).is_dirty(),
            final(self).text() == action_apply(old(self).text(), &action),
            action_inverts(old(self).text(), &action, &r),
            final(self).col() == col_clamp(col_of(final(self).cur_prefix(), final(self).tab())),
            final(self).saved() == final(self).col(),
            match r {
                Action::Insert { line_idx, char_idx, data } => valid_utf8(data@),
                Action::Delete { line_idx, char_idx, num_bytes } => true,
            },
            match action {
                Action::Delete { line_idx, char_idx, num_bytes } => {
                    &&& final(self).buf().cursor_line() == line_idx
                    &&& final(self).buf().cursor_char() == char_idx
                    &&& final(self).buf().cur() == action_pos(old(self).text(), &action)
                },
                Action::Insert { line_idx, char_idx, data } => final(self).buf().cur()
                    == action_pos(old(self).text(), &action) + data@.len(),
            },
    {
        let ghost t = self.text();
        let ghost d = self.buf().lines_view();
        proof {
            self.buf().lemma_split_view();
            self.buf().lemma_text_facts();
        }
        self.dirty = true;
        match action {
            Action::Delete { line_idx, char_idx, num_bytes } => {
                let ghost pos = pos_of(t, line_idx as int, char_idx as int);
                self.buffer.move_to(line_idx, char_idx);
                proof {
                    assert(self.buffer.cur() == pos);
                }
                let data = self.buffer.cut_bytes_right(num_bytes);
                self.fix_col_idx();
                proof {
                    assert(valid_utf8(data@)) by {
                        crate::action::lemma_pos_boundary(t, line_idx as int, char_idx as int);
                        crate::unicode::lemma_valid_subrange(t, pos, pos + num_bytes);
                    }
                }
                Action::Insert { line_idx, char_idx, data }
            },
            Action::Insert { line_idx, char_idx, data } => {
                let ghost pos = pos_of(t, line_idx as int, char_idx as int);
                self.buffer.move_to(line_idx, char_idx);
                proof {
                    assert(self.buffer.cur() == pos);
                }
                let n = data.len();
                self.buffer.insert_str(data.as_slice());
                self.fix_col_idx();
                Action::Delete { line_idx, char_idx, num_bytes: n }
            },
        }
    }

    /// Draws one screen row into the terminal buffer.
    #[verifier::rlimit(100)]
    fn draw_row(
        &self,
        term: &mut crate::terminal::Terminal,
        row: usize,
        start: usize,
        off: usize,
        w: usize,
        ui_attrs: &crate::editor::UiAttrs,
    )
        requires
            self.buf().wf(),
            self.tab() >= 1,
            row >= start,
            off < self.buf().lines_view().len(),
            w == crate::digits::dec_digits(self.buf().lines_view().len() as int + 1).len(),
        ensures
            final(term).saved() == old(term).saved(),
            final(term).out() == old(term).out() + crate::file::render_row(
                self.buf().lines_view(),
                off + (row - start),
                row as int,
                w as int,
                self.tab(),
                ui_attrs.line_nums,
                ui_attrs.default,
            ),
    {
        let ghost d = self.buf().lines_view();
        let ghost out_row = term.out();
        let n = self.buffer.num_lines();
        let tab = self.tab_size;
        term.move_to(row, 0);
        let rel = row - start;
        let ghost li = off + rel;
        if rel <= n - 1 - off {
            let lidx = off + rel;
            term.text_attr(ui_attrs.line_nums);
            let mut chunk: Vec<u8> = Vec::new();
            let mut numv: Vec<u8> = Vec::new();
            crate::digits::push_dec(&mut numv, lidx as u128 + 1);
            proof {
                crate::digits::lemma_dec_width_monotone(lidx + 1, n as int + 1);
            }
            let pad = w - numv.len();
            let mut j: usize = 0;
            proof {
                assert(chunk@ =~= crate::col::spaces(0));
            }
            while j < pad
                invariant
                    j <= pad,
                    chunk@ == crate::col::spaces(j as int),
                decreases pad - j,
            {
                chunk.push(32u8);
                proof {
                    assert(chunk@ =~= crate::col::spaces(j + 1));
                }
                j = j + 1;
            }
            chunk.append(&mut numv);
            chunk.push(32u8);
            term.write(chunk.as_slice());
            term.text_attr(ui_attrs.default);
            let mut body: Vec<u8> = Vec::new();
            {
                let s = self.buffer.line_at(lidx);
                crate::col::push_expanded(&mut body, s, tab);
            }
            term.write(body.as_slice());
            term.clear_to_end();
            proof {
                assert(chunk@ =~= crate::col::spaces(w - crate::digits::dec_digits(
                    li + 1,
                ).len()) + crate::digits::dec_digits(li + 1) + seq![32u8]);
                assert(term.out() =~= out_row + render_row(
                    d,
                    li,
                    row as int,
                    w as int,
                    tab as int,
                    ui_attrs.line_nums,
                    ui_attrs.default,
                ));
            }
        } else {
            term.clear_to_end();
            proof {
                assert(li >= d.len());
                assert(term.out() =~= out_row + render_row(
                    d,
                    li,
                    row as int,
                    w as int,
                    tab as int,
                    ui_attrs.line_nums,
                    ui_attrs.default,
                ));
            }
        }
    }

    /// Moves the cursor to the given line, at the greatest byte offset
    /// whose layout column does not pass the target column.
    fn set_line_idx(&mut self, line_idx: usize)
        requires
            old(self).buf().wf(),
            old(self).tab() >= 1,
            line_idx < old(self).buf().lines_view().len(),
        ensures
            final(self).buf().wf(),
            final(self).buf().lines_view() == old(self).buf().lines_view(),
            final(self).buf().cursor_line() == line_idx,
            final(self).fname() == old(self).fname(),
            final(self).is_dirty() == old(self).is_dirty(),
            final(self).tab() == old(self).tab(),
            final(self).indent_on() == old(self).indent_on(),
            final(self).undo_stack() == old(self).undo_stack(),
            final(self).redo_stack() == old(self).redo_stack(),
            final(self).act() == old(self).act(),
            final(self).offset() == old(self).offset(),
            final(self).saved() == old(self).saved(),
            final(self).col() == col_of(final(self).cur_prefix(), final(self).tab()),
            final(self).col() <= old(self).saved(),
            final(self).buf().cursor_char() == final(self).buf().cur_line().len()
                || col_step(
                final(self).col(),
                final(self).buf().cur_line()[final(self).buf().cursor_char()],
                final(self).tab(),
            ) > old(self).saved(),
    {
        let saved = self.saved_col_idx;
        let tab = self.tab_size;
        let ghost line = self.buffer.lines_view()[line_idx as int];
        let (ci, col): (usize, usize) = {
            let s = self.buffer.line_at(line_idx);
            let mut i: usize = 0;
            let mut col: usize = 0;
            let mut done: bool = false;
            proof {
                is_char_boundary_start_end_of_seq(s@);
                assert(s@.take(0) =~= Seq::<u8>::empty());
            }
            while i < s.len() && !done
                invariant
                    valid_utf8(s@),
                    s@ == line,
                    tab >= 1,
                    i <= s@.len(),
                    is_char_boundary(s@, i as int),
                    0 <= col,
                    col == col_of(s@.take(i as int), tab as int),
                    col <= saved,
                    done ==> i < s@.len() && col_step(col as int, s@[i as int], tab as int)
                        > saved,
                decreases s@.len() - i + if done { 0int } else { 1int },
            {
                let b = s[i];
                let k: usize = if b < 0x80 {
                    1
                } else if b < 0xe0 {
                    2
                } else if b < 0xf0 {
                    3
                } else {
                    4
                };
                proof {
                    crate::unicode::lemma_next_boundary(s@, i as int);
                    vstd::utf8::valid_utf8_split(s@, i as int);
                    crate::col::lemma_scalar_class(s@.subrange(i as int, s@.len() as int));
                    assert(s@.subrange(i as int, s@.len() as int)[0] == b);
                }
                let inc: usize = if b == 9 {
                    tab - col % tab
                } else {
                    1
                };
                proof {
                    crate::col::lemma_col_step_ge(col as int, b, tab as int);
                    if b == 9u8 {
                        assert(0 <= (col as int) % (tab as int) < tab as int)
                            by (nonlinear_arith)
                            requires
                                0 <= col as int && 1 <= tab as int,
                        ;
                        assert(col_step(col as int, b, tab as int) == col + inc);
                    }
                }
                if col > usize::MAX - inc || saved < col + inc {
                    done = true;
                } else {
                    let ghost old_col = col as int;
                    col = col + inc;
                    proof {
                        let pre = s@.take(i as int);
                        let ch = s@.subrange(i as int, i + k);
                        assert(s@.take(i + k) =~= pre + ch);
                        crate::col::lemma_col_concat(pre, ch, tab as int, 0int);
                        assert(ch[0] == b);
                        assert(crate::col::col_from(ch, tab as int, old_col) == col_step(
                            old_col,
                            b,
                            tab as int,
                        )) by {
                            assert(ch.len() == k);
                            assert(scalar_class(ch[0]) == k);
                            assert(ch.skip(k as int) =~= Seq::<u8>::empty());
                            assert(crate::col::col_from(ch, tab as int, old_col)
                                == crate::col::col_from(
                                ch.skip(k as int),
                                tab as int,
                                col_step(old_col, ch[0], tab as int),
                            ));
                            assert(crate::col::col_from(
                                Seq::<u8>::empty(),
                                tab as int,
                                col_step(old_col, b, tab as int),
                            ) == col_step(old_col, b, tab as int));
                        }
                    }
                    i = i + k;
                }
            }
            (i, col)
        };
        self.buffer.move_to(line_idx, ci);
        self.col_idx = col;
        proof {
            assert(self.cur_prefix() == line.take(ci as int));
            if ci == line.len() {
            }
        }
    }
}

impl File {
    /// The state as one value.
    pub open spec fn st(&self) -> FileState {
        self.state
    }

    /// A file around an existing buffer, with defaults: tab stops every
    /// four columns, automatic indent, clean history.
    pub fn new(filename: Vec<u8>, buffer: Buffer, dirty: bool) -> (r: File)
        requires
            buffer.wf(),
        ensures
            r.st().inv(),
            r.st().fname() == filename@,
            r.st().buf() == buffer,
            r.st().is_dirty() == dirty,
            r.st().tab() == 4,
            r.st().indent_on(),
            r.st().undo_stack() == Seq::<Action>::empty(),
            r.st().redo_stack() == Seq::<Action>::empty(),
            r.st().act() is Idle,
            r.st().offset() == 0,
    {
        let mut state = FileState {
            filename,
            buffer,
            dirty,
            col_idx: 0,
            saved_col_idx: 0,
            tab_size: 4,
            auto_indent: true,
            undo: Vec::new(),
            redo: Vec::new(),
            activity: Activity::Idle,
            line_offset: 0,
        };
        state.fix_col_idx();
        File { state }
    }

    /// The buffer, for reading.
    pub fn buffer(&self) -> (r: &Buffer)
        ensures
            r == self.st().buf(),
    {
        &self.state.buffer
    }

    /// The visual column of the cursor.
    pub fn col_idx(&self) -> (r: usize)
        ensures
            r == self.st().col(),
    {
        self.state.col_idx
    }

    /// The visual column that vertical motion keeps aiming for.
    pub fn saved_col_idx(&self) -> (r: usize)
        ensures
            r == self.st().saved(),
    {
        self.state.saved_col_idx
    }

    /// The file's name.
    pub fn name(&self) -> (r: &Vec<u8>)
        ensures
            r@ == self.st().fname(),
    {
        &self.state.filename
    }

    /// Whether the file has unsaved changes.
    pub fn dirty(&self) -> (r: bool)
        ensures
            r == self.st().is_dirty(),
    {
        self.state.dirty
    }

    /// Moves up `num` lines (to the first line if fewer remain), keeping
    /// the target column: the cursor lands at the greatest offset whose
    /// layout column does not pass it.
    pub fn up(&mut self, num: usize)
        requires
            old(self).st().inv(),
        ensures
            final(self).st().inv(),
            up_post(old(self).st(), final(self).st(), num as int),
    {
        self.state.activity = Activity::Idle;
        let li = self.state.buffer.line_idx();
        if num < li {
            self.state.set_line_idx(li - num);
        } else {
            self.state.set_line_idx(0);
        }
    }

    /// Moves down `num` lines (to the last line if fewer remain), keeping
    /// the target column as `up` does.
    pub fn down(&mut self, num: usize)
        requires
            old(self).st().inv(),
        ensures
            final(self).st().inv(),
            down_post(old(self).st(), final(self).st(), num as int),
    {
        self.state.activity = Activity::Idle;
        let li = self.state.buffer.line_idx();
        let n = self.state.buffer.num_lines();
        if num < n - li {
            self.state.set_line_idx(li + num);
        } else {
            self.state.set_line_idx(n - 1);
        }
    }

    /// Moves `num` characters left, crossing line ends, and recomputes the
    /// visual column from the new line prefix.
    pub fn left(&mut self, num: usize)
        requires
            old(self).st().inv(),
        ensures
            final(self).st().inv(),
            horizontal_post(
                old(self).st(),
                final(self).st(),
                bwd_n(old(self).st().text(), old(self).st().buf().cur(), num as nat),
            ),
    {
        self.state.activity = Activity::Idle;
        self.state.buffer.move_left(num);
        self.state.fix_col_idx();
    }

    /// Moves `num` characters right, crossing line ends, and recomputes the
    /// visual column from the new line prefix.
    pub fn right(&mut self, num: usize)
        requires
            old(self).st().inv(),
        ensures
            final(self).st().inv(),
            horizontal_post(
                old(self).st(),
                final(self).st(),
                fwd_n(old(self).st().text(), old(self).st().buf().cur(), num as nat),
            ),
    {
        self.state.activity = Activity::Idle;
        self.state.buffer.move_right(num);
        self.state.fix_col_idx();
    }

    /// Moves to the start of the current line.
    pub fn home(&mut self)
        requires
            old(self).st().inv(),
        ensures
            final(self).st().inv(),
            home_post(old(self).st(), final(self).st()),
    {
        self.state.activity = Activity::Idle;
        let li = self.state.buffer.line_idx();
        proof {
            is_char_boundary_start_end_of_seq(
                self.state.buffer.lines_view()[li as int],
            );
        }
        self.state.buffer.move_to(li, 0);
        self.state.fix_col_idx();
        proof {
            assert(self.state.cur_prefix() =~= Seq::<u8>::empty());
        }
    }

    /// Moves to the end of the current line.
    pub fn end(&mut self)
        requires
            old(self).st().inv(),
        ensures
            final(self).st().inv(),
            end_post(old(self).st(), final(self).st()),
    {
        self.state.activity = Activity::Idle;
        let li = self.state.buffer.line_idx();
        let len = {
            let s = self.state.buffer.line();
            s.len()
        };
        proof {
            is_char_boundary_start_end_of_seq(
                self.state.buffer.lines_view()[li as int],
            );
        }
        self.state.buffer.move_to(li, len);
        self.state.fix_col_idx();
        proof {
            assert(self.state.cur_prefix() =~= self.state.buf().cur_line());
        }
    }

    /// Types one character at the cursor. Consecutive typing grows one
    /// undo step; a newline ends the run and, with automatic indent on,
    /// copies the previous line's leading blanks, which the recorded span
    /// covers, so taking the step back removes them too.
    #[verifier::rlimit(100)]
    pub fn type_char(&mut self, ch: char)
        requires
            old(self).st().inv(),
        ensures
            final(self).st().inv(),
            type_char_post(old(self).st(), final(self).st(), ch),
    {
        let ghost t = self.state.text();
        let ghost cur0 = self.state.buffer.cur();
        let ghost d = self.state.buffer.lines_view();
        let ghost undo0 = self.state.undo@;
        proof {
            self.state.buffer.lemma_text_facts();
            self.state.buffer.lemma_split_view();
            crate::unicode::lemma_char_bytes_valid(ch);
            crate::unicode::lemma_char_bytes_newline(ch);
        }
        // the bytes this keystroke will add: the character, then any
        // automatic indent copied from what precedes the cursor
        let ind_vec: Vec<u8> = if ch == '\n' && self.state.auto_indent {
            let v = {
                let s = self.state.buffer.line_left();
                let mut j: usize = 0;
                while j < s.len() && (s[j] == 32 || s[j] == 9)
                    invariant
                        j <= s@.len(),
                        forall|m: int| 0 <= m < j ==> s@[m] == 32u8 || s@[m] == 9u8,
                    decreases s@.len() - j,
                {
                    j = j + 1;
                }
                proof {
                    crate::col::lemma_leading_ws_is(s@, j as int);
                }
                vstd::slice::slice_to_vec(vstd::slice::slice_subrange(s, 0, j))
            };
            v
        } else {
            Vec::new()
        };
        proof {
            assert(ind_vec@ == typed_indent(old(self).st(), ch));
            assert(valid_utf8(ind_vec@)) by {
                assert(forall|m: int|
                    0 <= m < ind_vec@.len() ==> vstd::utf8::is_leading_byte_width_1(
                        #[trigger] ind_vec@[m],
                    ));
                assert(vstd::utf8::partial_valid_utf8(ind_vec@, 0)) by {
                    assert(ind_vec@.subrange(0, 0) =~= Seq::<u8>::empty());
                }
                vstd::utf8::partial_valid_utf8_extend_ascii_block(
                    ind_vec@,
                    0,
                    ind_vec@.len() as int,
                );
                assert(ind_vec@.subrange(0, ind_vec@.len() as int) =~= ind_vec@);
            }
        }
        let k = {
            let enc = crate::unicode::encode_char(ch);
            enc.len()
        };
        let ind_len = ind_vec.len();
        let span_fits = ind_len <= usize::MAX - k;
        let span: usize = if span_fits {
            k + ind_len
        } else {
            k
        };
        // record the edit: extend the running typing step or begin one
        let mut coalesced = false;
        let ghost mut top_l: int = 0int;
        let ghost mut top_c: int = 0int;
        let ghost mut top_n: int = 0int;
        if matches!(self.state.activity, Activity::Typing) {
            let ulen = self.state.undo.len();
            let idx = ulen - 1;
            {
                let top = &mut self.state.undo[idx];
                match top {
                    Action::Delete { line_idx, char_idx, num_bytes } => {
                        proof {
                            top_l = *line_idx as int;
                            top_c = *char_idx as int;
                            top_n = *num_bytes as int;
                        }
                        if span_fits && *num_bytes <= usize::MAX - span {
                            *num_bytes = *num_bytes + span;
                            coalesced = true;
                        }
                    },
                    Action::Insert { line_idx, char_idx, data } => {
                        proof {
                            assert(false);
                        }
                    },
                }
            }
            if !coalesced {
                proof {
                    vstd::std_specs::vec::axiom_spec_len(&self.state.undo);
                }
                let a = Action::Delete {
                    line_idx: self.state.buffer.line_idx(),
                    char_idx: self.state.buffer.char_idx(),
                    num_bytes: span,
                };
                self.state.undo.push(a);
                self.state.redo.clear();
            }
        } else {
            let a = Action::Delete {
                line_idx: self.state.buffer.line_idx(),
                char_idx: self.state.buffer.char_idx(),
                num_bytes: span,
            };
            self.state.undo.push(a);
            self.state.redo.clear();
        }
        let ghost l0 = self.state.buffer.cursor_line();
        let ghost c0 = self.state.buffer.cursor_char();
        // make the edit
        self.state.buffer.insert_char(ch);
        let ghost t1 = self.state.text();
        if ind_vec.len() > 0 {
            self.state.buffer.insert_str(ind_vec.as_slice());
            proof {
                let ind = typed_indent(old(self).st(), ch);
                assert(t1.take(cur0 + 1) =~= t.take(cur0) + char_bytes(ch));
                assert(t1.skip(cur0 + 1) =~= t.skip(cur0));
                assert(self.state.text() =~= t.take(cur0) + typed_bytes(old(self).st(), ch)
                    + t.skip(cur0)) by {
                    assert(char_bytes(ch) == seq![10u8]);
                    assert(t.take(cur0) + (char_bytes(ch) + ind) + t.skip(cur0) =~= t.take(
                        cur0,
                    ) + char_bytes(ch) + ind + t.skip(cur0));
                }
            }
        } else {
            proof {
                assert(self.state.text() =~= t.take(cur0) + typed_bytes(old(self).st(), ch)
                    + t.skip(cur0)) by {
                    assert(typed_bytes(old(self).st(), ch) =~= char_bytes(ch));
                }
            }
        }
        self.state.fix_col_idx();
        self.state.activity = if ch != '\n' {
            Activity::Typing
        } else {
            Activity::Idle
        };
        self.state.dirty = true;
        proof {
            let tf = self.state.text();
            let ind = typed_indent(old(self).st(), ch);
            let tb = typed_bytes(old(self).st(), ch);
            self.state.buffer.lemma_text_facts();
            assert(valid_utf8(tb)) by {
                vstd::utf8::valid_utf8_concat(char_bytes(ch), ind);
            }
            assert(stack_data_ok(self.state.undo@)) by {
                if coalesced {
                    assert(forall|i: int|
                        0 <= i < self.state.undo@.len() && i != self.state.undo@.len() - 1
                            ==> self.state.undo@[i] == undo0[i]);
                } else {
                    assert(forall|i: int|
                        0 <= i < undo0.len() ==> self.state.undo@[i] == undo0[i]);
                }
            }
            assert(span_fits <==> tb.len() <= usize::MAX);
            // the recorded step applies to the new text and takes it back
            // to the old one
            if coalesced {
                assert(pos_of(t, top_l, top_c) + top_n == cur0);
                let p = pos_of(t, top_l, top_c);
                lemma_pos_boundary(t, top_l, top_c);
                assert(t.take(p) =~= tf.take(p));
                lemma_coords_transfer(t, tf, top_l, top_c);
                assert(is_char_boundary(tf, cur0 + span)) by {
                    vstd::utf8::valid_utf8_split(t, cur0);
                    vstd::utf8::valid_utf8_concat(t.take(cur0), tb);
                    assert(tf.subrange(0, cur0 + span) =~= t.take(cur0) + tb);
                    crate::unicode::lemma_boundary_of_valid_prefix(tf, cur0 + span);
                }
                assert(self.state.undo@.last() == Action::Delete {
                    line_idx: top_l as usize,
                    char_idx: top_c as usize,
                    num_bytes: (top_n + span) as usize,
                });
                assert(action_app(tf, &self.state.undo@.last()));
                let ext = self.state.undo@.last();
                let old_top = undo0.last();
                assert(action_apply(tf, &ext) =~= action_apply(t, &old_top)) by {
                    assert(tf.take(p) =~= t.take(p));
                    assert(tf.skip(p + (top_n + span)) =~= t.skip(p + top_n));
                }
                assert(self.state.undo@.drop_last() =~~= undo0.drop_last());
                assert(rewind(tf, self.state.undo@) == rewind(t, undo0));
            } else {
                assert(pos_of(t, l0, c0) == cur0);
                assert(coords_valid(t, l0, c0)) by {
                    assert(split_text(t) == d);
                }
                assert(t.take(cur0) =~= tf.take(cur0));
                lemma_coords_transfer(t, tf, l0, c0);
                assert(is_char_boundary(tf, cur0 + span)) by {
                    vstd::utf8::valid_utf8_split(t, cur0);
                    vstd::utf8::valid_utf8_concat(t.take(cur0), char_bytes(ch));
                    vstd::utf8::valid_utf8_concat(t.take(cur0), tb);
                    if span_fits {
                        assert(tf.subrange(0, cur0 + span) =~= t.take(cur0) + tb);
                    } else {
                        assert(tf.subrange(0, cur0 + span) =~= t.take(cur0) + char_bytes(
                            ch,
                        ));
                    }
                    crate::unicode::lemma_boundary_of_valid_prefix(tf, cur0 + span);
                }
                assert(action_app(tf, &self.state.undo@.last()));
                if span_fits {
                    let a = self.state.undo@.last();
                    assert(action_apply(tf, &a) =~= t) by {
                        assert(tf.take(cur0) =~= t.take(cur0));
                        assert(tf.skip(cur0 + span) =~= t.skip(cur0));
                    }
                    assert(self.state.undo@.drop_last() =~~= undo0);
                    assert(rewind(tf, self.state.undo@) == rewind(t, undo0));
                }
            }
            // the coalescing state matches the new top of the undo stack
            if ch != '\n' {
                assert(self.state.act_inv()) by {
                    assert(ind.len() == 0);
                    assert(span == k);
                    assert(self.state.buf().cur() == cur0 + k);
                    if coalesced {
                        assert(pos_of(tf, top_l, top_c) + (top_n + k) == cur0 + k);
                    } else {
                        assert(pos_of(tf, l0, c0) + k == cur0 + k);
                    }
                }
            }
            assert(typed_undo(old(self).st(), self.st(), tb.len() as int)) by {
                if coalesced {
                    assert(typing_absorbs(old(self).st(), tb.len() as int));
                } else if span_fits {
                    assert(!typing_absorbs(old(self).st(), tb.len() as int));
                    assert(self.state.undo@ =~~= undo0.push(
                        Action::Delete {
                            line_idx: l0 as usize,
                            char_idx: c0 as usize,
                            num_bytes: span,
                        },
                    ));
                }
            }
        }
    }

    /// Removes the character after the cursor, if any. Consecutive
    /// in-line deletions grow one undo step; removing a line end begins a
    /// new one.
    #[verifier::rlimit(100)]
    pub fn delete(&mut self)
        requires
            old(self).st().inv(),
        ensures
            final(self).st().inv(),
            delete_post(old(self).st(), final(self).st()),
    {
        let ghost t = self.state.text();
        let ghost cur0 = self.state.buffer.cur();
        let ghost d = self.state.buffer.lines_view();
        let ghost undo0 = self.state.undo@;
        proof {
            self.state.buffer.lemma_text_facts();
            self.state.buffer.lemma_split_view();
        }
        let copt = self.state.buffer.delete_char_right();
        let ch = match copt {
            Some(ch) => ch,
            None => {
                return ;
            },
        };
        let ghost kk = char_bytes(ch).len() as int;
        let ghost tf = self.state.text();
        let enc = crate::unicode::encode_char(ch);
        let li = self.state.buffer.line_idx();
        let ci = self.state.buffer.char_idx();
        proof {
            self.state.buffer.lemma_text_facts();
            self.state.buffer.lemma_split_view();
            assert(pos_of(tf, li as int, ci as int) == self.state.buffer.cur());
            crate::unicode::lemma_char_bytes_valid(ch);
        }
        let is_nl = ch == '\n';
        let mut coalesced = false;
        if !is_nl && matches!(self.state.activity, Activity::Deleting) {
            let ulen = self.state.undo.len();
            let idx = ulen - 1;
            let top = &mut self.state.undo[idx];
            match top {
                Action::Insert { line_idx, char_idx, data } => {
                    let ghost d0 = data@;
                    data.extend_from_slice(enc.as_slice());
                    proof {
                        assert(data@ == d0 + char_bytes(ch));
                    }
                    coalesced = true;
                },
                Action::Delete { line_idx, char_idx, num_bytes } => {
                    proof {
                        assert(false);
                    }
                },
            }
        }
        if !coalesced {
            let a = Action::Insert { line_idx: li, char_idx: ci, data: enc };
            proof {
                vstd::std_specs::vec::axiom_spec_len(&self.state.undo);
            }
            self.state.undo.push(a);
        }
        self.state.redo.clear();
        self.state.activity = Activity::Deleting;
        self.state.dirty = true;
        proof {
            let undo1 = self.state.undo@;
            assert(stack_data_ok(undo1)) by {
                if coalesced {
                    assert(forall|i: int|
                        0 <= i < undo1.len() && i != undo1.len() - 1 ==> undo1[i] == undo0[i]);
                    vstd::utf8::valid_utf8_concat(
                        match undo0.last() {
                            Action::Insert { line_idx, char_idx, data } => data@,
                            Action::Delete { line_idx, char_idx, num_bytes } => Seq::empty(),
                        },
                        char_bytes(ch),
                    );
                } else {
                    assert(forall|i: int| 0 <= i < undo0.len() ==> undo1[i] == undo0[i]);
                }
            }
            // the recorded step applies to the new text and restores the
            // old one
            assert(coords_valid(tf, li as int, ci as int) && pos_of(tf, li as int, ci as int)
                == cur0) by {
                assert(split_text(tf) == self.state.buffer.lines_view());
            }
            // the cursor's line prefix is untouched, so the column stands
            assert(self.state.cur_prefix() == old(self).st().cur_prefix()) by {
                assert(t.take(cur0) =~= tf.take(cur0));
                crate::doctext::lemma_coords_stable(t, tf, li as int, ci as int);
                assert(split_text(t) == d);
                assert(split_text(tf) == self.state.buffer.lines_view());
            }
            let topa = undo1.last();
            assert(action_app(tf, &topa));
            crate::unicode::lemma_next_boundary(t, cur0);
            if coalesced {
                assert(action_apply(tf, &topa) =~= action_apply(t, &undo0.last())) by {
                    assert(tf.take(cur0) =~= t.take(cur0));
                    assert(tf.skip(cur0) =~= t.skip(cur0 + kk));
                    assert(t.skip(cur0) =~= char_bytes(ch) + t.skip(cur0 + kk));
                }
                assert(undo1.drop_last() =~~= undo0.drop_last());
                assert(rewind(tf, undo1) == rewind(t, undo0));
            } else {
                assert(action_apply(tf, &topa) =~= t) by {
                    assert(tf.take(cur0) =~= t.take(cur0));
                    assert(tf.skip(cur0) =~= t.skip(cur0 + kk));
                    assert(t.skip(cur0) =~= char_bytes(ch) + t.skip(cur0 + kk));
                }
                assert(undo1.drop_last() =~~= undo0);
                assert(rewind(tf, undo1) == rewind(t, undo0));
            }
            assert(self.state.act_inv());
            assert(kk == vstd::utf8::length_of_first_scalar(t.skip(cur0)));
            // what was removed, and whether it was a line end
            assert(t.subrange(cur0, cur0 + kk) == char_bytes(ch));
            assert((t[cur0] == 10u8) <==> ch == '\n') by {
                crate::unicode::lemma_char_bytes_newline(ch);
                assert(char_bytes(ch)[0] == t[cur0]);
                if t[cur0] == 10u8 {
                    assert(char_bytes(ch).contains(10u8));
                }
            }
            assert(forward_delete_undo(
                old(self).st(),
                self.st(),
                t.subrange(cur0, cur0 + kk),
                t[cur0] == 10u8,
            )) by {
                if coalesced {
                    assert(undo1.len() == undo0.len());
                } else {
                    assert(undo1.len() == undo0.len() + 1);
                }
            }
            assert(delete_post(old(self).st(), self.st()));
        }
    }

    /// Removes the character before the cursor, if any. Consecutive
    /// in-line erasures grow one undo step; removing a line end begins a
    /// new one.
    #[verifier::rlimit(100)]
    pub fn backspace(&mut self)
        requires
            old(self).st().inv(),
        ensures
            final(self).st().inv(),
            backspace_post(old(self).st(), final(self).st()),
    {
        let ghost t = self.state.text();
        let ghost cur0 = self.state.buffer.cur();
        let ghost undo0 = self.state.undo@;
        proof {
            self.state.buffer.lemma_text_facts();
            self.state.buffer.lemma_split_view();
        }
        let copt = self.state.buffer.delete_char_left();
        let ch = match copt {
            Some(ch) => ch,
            None => {
                return ;
            },
        };
        let ghost kk = char_bytes(ch).len() as int;
        let ghost tf = self.state.text();
        self.state.fix_col_idx();
        let enc = crate::unicode::encode_char(ch);
        let li = self.state.buffer.line_idx();
        let ci = self.state.buffer.char_idx();
        proof {
            self.state.buffer.lemma_text_facts();
            self.state.buffer.lemma_split_view();
            assert(pos_of(tf, li as int, ci as int) == self.state.buffer.cur());
            crate::unicode::lemma_char_bytes_valid(ch);
        }
        let is_nl = ch == '\n';
        let mut coalesced = false;
        if !is_nl && matches!(self.state.activity, Activity::Backspacing) {
            let ulen = self.state.undo.len();
            let idx = ulen - 1;
            let top = &mut self.state.undo[idx];
            match top {
                Action::Insert { line_idx, char_idx, data } => {
                    *char_idx = ci;
                    let mut j: usize = 0;
                    let ghost data0 = data@;
                    while j < enc.len()
                        invariant
                            j <= enc@.len(),
                            enc@.len() <= 4,
                            data@.len() == data0.len() + j,
                            data@ == enc@.take(j as int) + data0,
                        decreases enc@.len() - j,
                    {
                        data.insert(j, enc[j]);
                        proof {
                            assert(data@ =~= enc@.take(j + 1) + data0);
                        }
                        j = j + 1;
                    }
                    proof {
                        assert(data@ =~= enc@ + data0);
                    }
                    coalesced = true;
                },
                Action::Delete { line_idx, char_idx, num_bytes } => {
                    proof {
                        assert(false);
                    }
                },
            }
        }
        if !coalesced {
            let a = Action::Insert { line_idx: li, char_idx: ci, data: enc };
            proof {
                vstd::std_specs::vec::axiom_spec_len(&self.state.undo);
            }
            self.state.undo.push(a);
        }
        self.state.redo.clear();
        self.state.activity = Activity::Backspacing;
        self.state.dirty = true;
        proof {
            let undo1 = self.state.undo@;
            assert(stack_data_ok(undo1)) by {
                if coalesced {
                    assert(forall|i: int|
                        0 <= i < undo1.len() && i != undo1.len() - 1 ==> undo1[i] == undo0[i]);
                    vstd::utf8::valid_utf8_concat(
                        char_bytes(ch),
                        match undo0.last() {
                            Action::Insert { line_idx, char_idx, data } => data@,
                            Action::Delete { line_idx, char_idx, num_bytes } => Seq::empty(),
                        },
                    );
                } else {
                    assert(forall|i: int| 0 <= i < undo0.len() ==> undo1[i] == undo0[i]);
                }
            }
            assert(coords_valid(tf, li as int, ci as int) && pos_of(tf, li as int, ci as int)
                == cur0 - kk) by {
                assert(split_text(tf) == self.state.buffer.lines_view());
            }
            let topa = undo1.last();
            assert(action_app(tf, &topa));
            if coalesced {
                // the old top sat where the cursor was before this erasure
                assert(action_apply(tf, &topa) =~= action_apply(t, &undo0.last())) by {
                    assert(pos_of(t, action_line(&undo0.last()), action_char(&undo0.last()))
                        == cur0);
                    assert(tf.take(cur0 - kk) =~= t.take(cur0 - kk));
                    assert(tf.skip(cur0 - kk) =~= t.skip(cur0));
                    assert(t.take(cur0) =~= t.take(cur0 - kk) + char_bytes(ch));
                }
                assert(undo1.drop_last() =~~= undo0.drop_last());
                assert(rewind(tf, undo1) == rewind(t, undo0));
            } else {
                assert(action_apply(tf, &topa) =~= t) by {
                    assert(tf.take(cur0 - kk) =~= t.take(cur0 - kk));
                    assert(tf.skip(cur0 - kk) =~= t.skip(cur0));
                }
                assert(undo1.drop_last() =~~= undo0);
                assert(rewind(tf, undo1) == rewind(t, undo0));
            }
            assert(self.state.act_inv());
            // where the cursor came to rest: one character boundary back
            assert(crate::unicode::prev_cur(t, cur0) == cur0 - kk) by {
                crate::unicode::lemma_char_bytes_shape(ch);
                assert(t.subrange(cur0 - kk, cur0) == char_bytes(ch));
                assert(t[cur0 - kk] == char_bytes(ch)[0]);
                vstd::utf8::is_char_boundary_iff_not_is_continuation_byte(t, cur0 - kk);
                assert forall|m: int| cur0 - kk < m < cur0 implies !is_char_boundary(
                    t,
                    m,
                ) by {
                    assert(t[m] == char_bytes(ch)[m - (cur0 - kk)]);
                    vstd::utf8::is_char_boundary_iff_not_is_continuation_byte(t, m);
                }
                crate::unicode::lemma_prev_cur_char(t, cur0, cur0 - kk);
            }
            // what was removed, and whether it was a line end
            assert((t[cur0 - kk] == 10u8) <==> ch == '\n') by {
                crate::unicode::lemma_char_bytes_newline(ch);
                assert(char_bytes(ch)[0] == t[cur0 - kk]);
                if t[cur0 - kk] == 10u8 {
                    assert(char_bytes(ch).contains(10u8));
                }
            }
            assert(backward_delete_undo(
                old(self).st(),
                self.st(),
                t.subrange(cur0 - kk, cur0),
                t[cur0 - kk] == 10u8,
            )) by {
                if coalesced {
                    assert(undo1.len() == undo0.len());
                } else {
                    assert(undo1.len() == undo0.len() + 1);
                }
            }
            assert(backspace_post(old(self).st(), self.st()));
        }
    }

    /// Cuts the whole current line into the kill buffer. Consecutive kills
    /// grow one undo step and pile up in the buffer; inserting the cut
    /// bytes back at the cursor restores the document.
    #[verifier::rlimit(100)]
    pub fn kill(&mut self, kill_buf: &mut Vec<u8>)
        requires
            old(self).st().inv(),
            valid_utf8(old(kill_buf)@),
        ensures
            final(self).st().inv(),
            valid_utf8(final(kill_buf)@),
            kill_post(old(self).st(), final(self).st(), old(kill_buf)@, final(kill_buf)@),
    {
        let ghost t = self.state.text();
        let ghost d = self.state.buffer.lines_view();
        let ghost undo0 = self.state.undo@;
        let ghost l0 = self.state.buffer.cursor_line();
        let ghost c0 = self.state.buffer.cursor_char();
        proof {
            self.state.buffer.lemma_text_facts();
            self.state.buffer.lemma_split_view();
        }
        let cut = self.state.buffer.cut_line();
        let ghost tf = self.state.text();
        proof {
            self.state.buffer.lemma_text_facts();
            self.state.buffer.lemma_split_view();
            assert(valid_utf8(cut@)) by {
                assert(crate::doctext::lines_wf(d));
                assert(crate::unicode::line_wf(d[l0]));
                if l0 + 1 < d.len() {
                    crate::doctext::lemma_ascii_byte_valid(10u8);
                    vstd::utf8::valid_utf8_concat(d[l0], seq![10u8]);
                }
            }
        }
        kill_buf.extend_from_slice(cut.as_slice());
        proof {
            vstd::utf8::valid_utf8_concat(old(kill_buf)@, cut@);
            assert(kill_buf@ == old(kill_buf)@ + cut@);
            assert(valid_utf8(kill_buf@));
            assert(kill_buf@.take(old(kill_buf)@.len() as int) =~= old(kill_buf)@);
            assert(kill_buf@.skip(old(kill_buf)@.len() as int) =~= cut@);
        }
        self.state.fix_col_idx();
        self.state.dirty = true;
        let li = self.state.buffer.line_idx();
        let mut coalesced = false;
        if matches!(self.state.activity, Activity::Killing) {
            let ulen = self.state.undo.len();
            let idx = ulen - 1;
            let top = &mut self.state.undo[idx];
            match top {
                Action::Insert { line_idx, char_idx, data } => {
                    let ghost dt0 = data@;
                    data.extend_from_slice(cut.as_slice());
                    proof {
                        assert(data@ == dt0 + cut@);
                    }
                    coalesced = true;
                },
                Action::Delete { line_idx, char_idx, num_bytes } => {
                    proof {
                        assert(false);
                    }
                },
            }
        }
        if !coalesced {
            let a = Action::Insert { line_idx: li, char_idx: 0, data: cut };
            proof {
                vstd::std_specs::vec::axiom_spec_len(&self.state.undo);
            }
            self.state.undo.push(a);
        }
        self.state.redo.clear();
        self.state.activity = Activity::Killing;
        proof {
            let undo1 = self.state.undo@;
            let ghost ls = self.state.buffer.cur();
            assert(stack_data_ok(undo1)) by {
                if coalesced {
                    assert(forall|i: int|
                        0 <= i < undo1.len() && i != undo1.len() - 1 ==> undo1[i] == undo0[i]);
                    vstd::utf8::valid_utf8_concat(
                        match undo0.last() {
                            Action::Insert { line_idx, char_idx, data } => data@,
                            Action::Delete { line_idx, char_idx, num_bytes } => Seq::empty(),
                        },
                        cut@,
                    );
                } else {
                    assert(forall|i: int| 0 <= i < undo0.len() ==> undo1[i] == undo0[i]);
                }
            }
            assert(coords_valid(tf, li as int, 0) && pos_of(tf, li as int, 0) == ls) by {
                assert(split_text(tf) == self.state.buffer.lines_view());
                vstd::utf8::is_char_boundary_start_end_of_seq(
                    self.state.buffer.lines_view()[li as int],
                );
            }
            let topa = undo1.last();
            assert(action_app(tf, &topa));
            if coalesced {
                assert(pos_of(t, li as int, 0) == ls) by {
                    assert(split_text(t) == d);
                    assert(c0 == 0);
                }
                assert(action_apply(tf, &topa) =~= action_apply(t, &undo0.last())) by {
                    assert(tf.take(ls) =~= t.take(ls));
                    assert(cut@ + tf.skip(ls) =~= t.skip(ls)) by {
                        assert(t =~= tf.take(ls) + cut@ + tf.skip(ls));
                    }
                }
                assert(undo1.drop_last() =~~= undo0.drop_last());
                assert(rewind(tf, undo1) == rewind(t, undo0));
            } else {
                assert(action_apply(tf, &topa) =~= t) by {
                    assert(t =~= tf.take(ls) + cut@ + tf.skip(ls));
                }
                assert(undo1.drop_last() =~~= undo0);
                assert(rewind(tf, undo1) == rewind(t, undo0));
            }
            assert(self.state.act_inv());
            assert(cut@ == kill_cut(old(self).st()));
            assert(kill_undo(old(self).st(), self.st(), cut@)) by {
                if coalesced {
                    assert(undo1.len() == undo0.len());
                } else {
                    assert(undo1.len() == undo0.len() + 1);
                }
            }
            assert(self.state.cur_prefix() =~= Seq::<u8>::empty());
            assert(col_of(Seq::<u8>::empty(), self.st().tab()) == 0);
            assert(kill_post(old(self).st(), self.st(), old(kill_buf)@, kill_buf@));
        }
    }

    /// Inserts the kill buffer at the cursor as one undoable step.
    #[verifier::rlimit(100)]
    pub fn unkill(&mut self, kill_buf: &Vec<u8>)
        requires
            old(self).st().inv(),
            valid_utf8(kill_buf@),
        ensures
            final(self).st().inv(),
            unkill_post(old(self).st(), final(self).st(), kill_buf@),
    {
        let ghost t = self.state.text();
        let ghost cur0 = self.state.buffer.cur();
        let ghost d = self.state.buffer.lines_view();
        let ghost undo0 = self.state.undo@;
        let ghost l0 = self.state.buffer.cursor_line();
        let ghost c0 = self.state.buffer.cursor_char();
        proof {
            self.state.buffer.lemma_text_facts();
            self.state.buffer.lemma_split_view();
        }
        let a = Action::Delete {
            line_idx: self.state.buffer.line_idx(),
            char_idx: self.state.buffer.char_idx(),
            num_bytes: kill_buf.len(),
        };
        proof {
            vstd::std_specs::vec::axiom_spec_len(&self.state.undo);
        }
        self.state.undo.push(a);
        self.state.redo.clear();
        self.state.buffer.insert_str(kill_buf.as_slice());
        self.state.fix_col_idx();
        self.state.activity = Activity::Idle;
        proof {
            let tf = self.state.text();
            let undo1 = self.state.undo@;
            self.state.buffer.lemma_text_facts();
            assert(stack_data_ok(undo1)) by {
                assert(forall|i: int| 0 <= i < undo0.len() ==> undo1[i] == undo0[i]);
            }
            assert(coords_valid(t, l0, c0) && pos_of(t, l0, c0) == cur0) by {
                assert(split_text(t) == d);
            }
            assert(t.take(cur0) =~= tf.take(cur0));
            lemma_coords_transfer(t, tf, l0, c0);
            assert(is_char_boundary(tf, cur0 + kill_buf@.len())) by {
                vstd::utf8::valid_utf8_split(t, cur0);
                vstd::utf8::valid_utf8_concat(t.take(cur0), kill_buf@);
                assert(tf.subrange(0, cur0 + kill_buf@.len()) =~= t.take(cur0) + kill_buf@);
                crate::unicode::lemma_boundary_of_valid_prefix(tf, cur0 + kill_buf@.len());
            }
            let topa = undo1.last();
            assert(action_app(tf, &topa));
            assert(action_apply(tf, &topa) =~= t) by {
                assert(tf.take(cur0) =~= t.take(cur0));
                assert(tf.skip(cur0 + kill_buf@.len()) =~= t.skip(cur0));
            }
            assert(undo1.drop_last() =~~= undo0);
            assert(rewind(tf, undo1) == rewind(t, undo0));
            assert(undo1 =~~= undo0.push(
                Action::Delete {
                    line_idx: l0 as usize,
                    char_idx: c0 as usize,
                    num_bytes: kill_buf@.len() as usize,
                },
            ));
            assert(unkill_post(old(self).st(), self.st(), kill_buf@));
        }
    }

    /// Takes back the most recent recorded edit, handing the reversing
    /// step to the redo stack. A recorded step that no longer fits the
    /// document is discarded without touching the text.
    #[verifier::rlimit(50)]
    pub fn undo(&mut self)
        requires
            old(self).st().inv(),
        ensures
            final(self).st().inv(),
            undo_post(old(self).st(), final(self).st()),
    {
        let ghost t = self.state.text();
        let ghost undo0 = self.state.undo@;
        let ghost redo0 = self.state.redo@;
        let popped = self.state.undo.pop();
        match popped {
            None => {},
            Some(a) => {
                let ghost a0 = a;
                let do_it = self.state.check_action(&a);
                if do_it {
                    proof {
                        self.state.buffer.lemma_text_facts();
                    }
                    let r = self.state.perform(a);
                    proof {
                        crate::action::lemma_apply_invert(t, &a0, &r);
                    }
                    self.state.redo.push(r);
                    proof {
                        assert(stack_data_ok(self.state.redo@)) by {
                            assert(forall|i: int|
                                0 <= i < redo0.len() ==> self.state.redo@[i] == redo0[i]);
                        }
                        assert(stack_data_ok(self.state.undo@)) by {
                            assert(forall|i: int|
                                0 <= i < self.state.undo@.len() ==> self.state.undo@[i]
                                    == undo0[i]);
                        }
                        assert(self.state.redo@.drop_last() =~~= redo0);
                        assert(rewind(self.state.text(), self.state.undo@) == rewind(
                            t,
                            undo0,
                        ));
                        assert(rewind(self.state.text(), self.state.redo@) == rewind(
                            t,
                            redo0,
                        )) by {
                            assert(action_apply(self.state.text(), &self.state.redo@.last())
                                == t);
                        }
                    }
                } else {
                    proof {
                        assert(stack_data_ok(self.state.undo@)) by {
                            assert(forall|i: int|
                                0 <= i < self.state.undo@.len() ==> self.state.undo@[i]
                                    == undo0[i]);
                        }
                    }
                }
            },
        }
        self.state.activity = Activity::Idle;
    }

    /// Replays the most recently undone edit, handing the reversing step
    /// back to the undo stack. A step that no longer fits the document is
    /// discarded without touching the text.
    #[verifier::rlimit(50)]
    pub fn redo(&mut self)
        requires
            old(self).st().inv(),
        ensures
            final(self).st().inv(),
            redo_post(old(self).st(), final(self).st()),
    {
        let ghost t = self.state.text();
        let ghost undo0 = self.state.undo@;
        let ghost redo0 = self.state.redo@;
        let popped = self.state.redo.pop();
        match popped {
            None => {},
            Some(a) => {
                let ghost a0 = a;
                let do_it = self.state.check_action(&a);
                if do_it {
                    proof {
                        self.state.buffer.lemma_text_facts();
                    }
                    let r = self.state.perform(a);
                    proof {
                        crate::action::lemma_apply_invert(t, &a0, &r);
                    }
                    self.state.undo.push(r);
                    proof {
                        assert(stack_data_ok(self.state.undo@)) by {
                            assert(forall|i: int|
                                0 <= i < undo0.len() ==> self.state.undo@[i] == undo0[i]);
                        }
                        assert(stack_data_ok(self.state.redo@)) by {
                            assert(forall|i: int|
                                0 <= i < self.state.redo@.len() ==> self.state.redo@[i]
                                    == redo0[i]);
                        }
                        assert(self.state.undo@.drop_last() =~~= undo0);
                        assert(rewind(self.state.text(), self.state.redo@) == rewind(
                            t,
                            redo0,
                        ));
                        assert(rewind(self.state.text(), self.state.undo@) == rewind(
                            t,
                            undo0,
                        )) by {
                            assert(action_apply(self.state.text(), &self.state.undo@.last())
                                == t);
                        }
                    }
                } else {
                    proof {
                        assert(stack_data_ok(self.state.redo@)) by {
                            assert(forall|i: int|
                                0 <= i < self.state.redo@.len() ==> self.state.redo@[i]
                                    == redo0[i]);
                        }
                    }
                }
            },
        }
        self.state.activity = Activity::Idle;
    }

    /// Draws the visible rows into the terminal buffer and parks the
    /// terminal cursor on the file cursor. The viewport offset moves just
    /// enough to keep the cursor's line visible.
    #[verifier::rlimit(100)]
    pub fn draw(
        &mut self,
        term: &mut crate::terminal::Terminal,
        ui_attrs: &crate::editor::UiAttrs,
        start: usize,
        end: usize,
    )
        requires
            old(self).st().inv(),
            start < end,
        ensures
            final(self).st().inv(),
            same_config(old(self).st(), final(self).st()),
            final(self).st().buf() == old(self).st().buf(),
            final(self).st().undo_stack() == old(self).st().undo_stack(),
            final(self).st().redo_stack() == old(self).st().redo_stack(),
            final(self).st().act() == old(self).st().act(),
            final(self).st().is_dirty() == old(self).st().is_dirty(),
            final(self).st().col() == old(self).st().col(),
            final(self).st().saved() == old(self).st().saved(),
            ({
                let cl = old(self).st().buf().cursor_line();
                let h1 = end - start - 1;
                let off0 = old(self).st().offset();
                let off = final(self).st().offset();
                &&& off == if cl < off0 {
                    cl
                } else if off0 + h1 < cl {
                    cl - h1
                } else {
                    off0
                }
                &&& off <= cl <= off + h1
            }),
            ({
                let d = old(self).st().buf().lines_view();
                let off = final(self).st().offset();
                let w = crate::digits::dec_digits(d.len() as int + 1).len() as int;
                let cl = old(self).st().buf().cursor_line();
                final(term).out() == old(term).out() + render_rows(
                    d,
                    off,
                    start as int,
                    end as int,
                    w,
                    old(self).st().tab(),
                    ui_attrs.line_nums,
                    ui_attrs.default,
                ) + crate::terminal::esc_move(
                    start + cl - off,
                    col_clamp(col_clamp(w + 1) + old(self).st().col()),
                )
            }),
    {
        let cl = self.state.buffer.line_idx();
        let h1 = end - start - 1;
        if cl < self.state.line_offset {
            self.state.line_offset = cl;
        } else {
            let dist = cl - self.state.line_offset;
            if dist > h1 {
                self.state.line_offset = cl - h1;
            }
        }
        let off = self.state.line_offset;
        let n = self.state.buffer.num_lines();
        let tab = self.state.tab_size;
        let mut wv: Vec<u8> = Vec::new();
        crate::digits::push_dec(&mut wv, n as u128 + 1);
        let w = wv.len();
        let ghost d = self.state.buffer.lines_view();
        let ghost base = term.out();
        let ghost st1 = self.st();
        let mut row = start;
        proof {
            assert(render_rows(
                d,
                off as int,
                start as int,
                start as int,
                w as int,
                tab as int,
                ui_attrs.line_nums,
                ui_attrs.default,
            ) =~= Seq::<u8>::empty());
            assert(base + Seq::<u8>::empty() =~= base);
        }
        while row < end
            invariant
                start <= row <= end,
                self.st() == st1,
                self.st().inv(),
                d == self.state.buffer.lines_view(),
                n == d.len(),
                tab == self.st().tab(),
                1 <= tab,
                off == self.st().offset(),
                off <= n - 1,
                w == crate::digits::dec_digits(n + 1).len(),
                term.out() == base + render_rows(
                    d,
                    off as int,
                    start as int,
                    row as int,
                    w as int,
                    tab as int,
                    ui_attrs.line_nums,
                    ui_attrs.default,
                ),
            decreases end - row,
        {
            self.state.draw_row(term, row, start, off, w, ui_attrs);
            proof {
                assert(term.out() =~= base + render_rows(
                    d,
                    off as int,
                    start as int,
                    row + 1,
                    w as int,
                    tab as int,
                    ui_attrs.line_nums,
                    ui_attrs.default,
                ));
            }
            row = row + 1;
        }
        let t1: usize = if w > usize::MAX - 1 {
            usize::MAX
        } else {
            w + 1
        };
        let tc: usize = if self.state.col_idx > usize::MAX - t1 {
            usize::MAX
        } else {
            t1 + self.state.col_idx
        };
        term.move_to(start + (cl - off), tc);
    }

    /// The status line: one-based cursor line over line count, then
    /// one-based visual column over the current line's layout width plus
    /// one.
    #[verifier::rlimit(30)]
    pub fn status(&self) -> (r: Vec<u8>)
        requires
            self.st().inv(),
        ensures
            r@ == status_text(self.st()),
    {
        let mut out: Vec<u8> = Vec::new();
        out.push(108u8);
        out.push(105u8);
        out.push(110u8);
        out.push(101u8);
        out.push(32u8);
        let li = self.state.buffer.line_idx();
        let n = self.state.buffer.num_lines();
        crate::digits::push_dec(&mut out, (li + 1) as u128);
        out.push(47u8);
        crate::digits::push_dec(&mut out, n as u128);
        out.push(32u8);
        out.push(32u8);
        out.push(99u8);
        out.push(111u8);
        out.push(108u8);
        out.push(32u8);
        let col = self.state.col_idx;
        let c1: usize = if col == usize::MAX {
            usize::MAX
        } else {
            col + 1
        };
        crate::digits::push_dec(&mut out, c1 as u128);
        out.push(47u8);
        let w = {
            let s = self.state.buffer.line();
            col_scan(s, self.state.tab_size)
        };
        let w1: usize = if w == usize::MAX {
            usize::MAX
        } else {
            w + 1
        };
        crate::digits::push_dec(&mut out, w1 as u128);
        proof {
            assert(out@ =~= status_text(self.st()));
        }
        out
    }

    /// The document serialized for saving: the lines separated by single
    /// newlines, no trailing newline — exactly the flat text. The state
    /// does not change; once the caller knows the write reached the disk
    /// it reports that with `mark_saved`, so a failed write leaves the
    /// file dirty.
    pub fn save(&self) -> (r: Vec<u8>)
        requires
            self.st().inv(),
        ensures
            r@ == self.st().text(),
    {
        let ghost d = self.state.buffer.lines_view();
        let mut out: Vec<u8> = Vec::new();
        let n = self.state.buffer.num_lines();
        let mut l: usize = 0;
        proof {
            assert(d.take(0) =~~= Seq::<Seq<u8>>::empty());
        }
        while l < n
            invariant
                self.st().inv(),
                d == self.state.buffer.lines_view(),
                n == d.len(),
                0 <= l <= n,
                out@ == crate::doctext::join(d.take(l as int)),
            decreases n - l,
        {
            if l > 0 {
                out.push(10u8);
            }
            let s = self.state.buffer.line_at(l);
            out.extend_from_slice(s);
            proof {
                crate::doctext::lemma_join_snoc(d.take(l as int), d[l as int]);
                assert(d.take(l + 1) =~~= d.take(l as int).push(d[l as int]));
                if l == 0 {
                    assert(out@ =~= crate::doctext::join(d.take(1)));
                } else {
                    assert(out@ =~= crate::doctext::join(d.take(l as int)) + seq![10u8]
                        + d[l as int]);
                }
            }
            l = l + 1;
        }
        proof {
            assert(d.take(n as int) =~~= d);
        }
        out
    }

    /// Records that the saved bytes reached the disk: the file is clean
    /// and the coalescing run ends. Nothing else changes.
    pub fn mark_saved(&mut self)
        requires
            old(self).st().inv(),
        ensures
            final(self).st().inv(),
            same_config(old(self).st(), final(self).st()),
            final(self).st().buf() == old(self).st().buf(),
            !final(self).st().is_dirty(),
            final(self).st().act() is Idle,
            final(self).st().undo_stack() == old(self).st().undo_stack(),
            final(self).st().redo_stack() == old(self).st().redo_stack(),
            final(self).st().col() == old(self).st().col(),
            final(self).st().saved() == old(self).st().saved(),
            final(self).st().offset() == old(self).st().offset(),
    {
        self.state.dirty = false;
        self.state.activity = Activity::Idle;
    }
}

} // verus!
